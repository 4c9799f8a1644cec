use mips_parser::arch::{FpReg, Reg};
use mips_parser::error::{ErrorKind, ParseErr};
use mips_parser::span::Span;
use mips_parser::token::TokenValue;

const VALID_REGISTERS: [&str; 64] = [
    "$zero", "$0", "$at", "$1", "$v0", "$2", "$v1", "$3", "$a0", "$4", "$a1", "$5", "$a2", "$6",
    "$a3", "$7", "$t0", "$8", "$t1", "$9", "$t2", "$10", "$t3", "$11", "$t4", "$12", "$t5", "$13",
    "$t6", "$14", "$t7", "$15", "$s0", "$16", "$s1", "$17", "$s2", "$18", "$s3", "$19", "$s4",
    "$20", "$s5", "$21", "$s6", "$22", "$s7", "$23", "$t8", "$24", "$t9", "$25", "$k0", "$26",
    "$k1", "$27", "$gp", "$28", "$sp", "$29", "$fp", "$30", "$ra", "$31",
];

const VALID_FP_REGISTERS: [&str; 32] = [
    "$f0", "$f1", "$f2", "$f3", "$f4", "$f5", "$f6", "$f7", "$f8", "$f9", "$f10", "$f11", "$f12",
    "$f13", "$f14", "$f15", "$f16", "$f17", "$f18", "$f19", "$f20", "$f21", "$f22", "$f23",
    "$f24", "$f25", "$f26", "$f27", "$f28", "$f29", "$f30", "$f31",
];

#[test]
fn test_parse_register() {
    for (idx, reg_str) in VALID_REGISTERS.iter().enumerate() {
        let s = Span::new(reg_str);
        let (remain_str, token) = Reg::parse(s).unwrap();
        assert!("" == remain_str.fragment());

        match token.value {
            TokenValue::Register(reg) => {
                assert_eq!(reg, Reg::new((idx / 2) as u32));
            }
            _ => {
                panic!("Unexpected token value type! Token: {:?}", token);
            }
        }
    }
}

#[test]
fn fail_invalid_register() {
    let s = Span::new("$32");
    let res = Reg::parse(s);
    match res.unwrap_err() {
        ParseErr::Error(err) => {
            assert_eq!(ErrorKind::InvalidRegister, err.kind);
            assert_eq!(0, err.input.location_offset());
            assert_eq!(1, err.input.location_line());
            assert_eq!("$32", err.input.fragment());
        }
        val @ _ => panic!("Result was not an error type {:?}", val),
    }
}

#[test]
fn test_parse_fp_register() {
    for (idx, reg_str) in VALID_FP_REGISTERS.iter().enumerate() {
        let s = Span::new(reg_str);
        let (remain_str, token) = FpReg::parse(s).unwrap();
        assert!("" == remain_str.fragment());

        match token.value {
            TokenValue::FloatReg(reg) => {
                assert_eq!(reg, FpReg::new(idx as u32));
            }
            _ => {
                panic!("Unexpected token value type! Token: {:?}", token);
            }
        }
    }
}

#[test]
fn fail_invalid_fp_register() {
    let s = Span::new("$f32");
    let res = FpReg::parse(s);
    match res.unwrap_err() {
        ParseErr::Error(err) => {
            assert_eq!(ErrorKind::InvalidRegister, err.kind);
            assert_eq!(0, err.input.location_offset());
            assert_eq!(1, err.input.location_line());
            assert_eq!("$f32", err.input.fragment());
        }
        val @ _ => panic!("Result was not an error type {:?}", val),
    }
}

#[test]
fn test_convenient_names() {
    let names = [
        "$zero", "$at", "$v0", "$v1", "$a0", "$a1", "$a2", "$a3", "$t0", "$t1", "$t2", "$t3",
        "$t4", "$t5", "$t6", "$t7", "$s0", "$s1", "$s2", "$s3", "$s4", "$s5", "$s6", "$s7", "$t8",
        "$t9", "$k0", "$k1", "$gp", "$sp", "$fp", "$ra",
    ];

    for (i, name) in (0..=31).zip(names.iter()) {
        assert_eq!(str::parse::<Reg>(name).unwrap().reg_no, i);
    }
}

#[test]
fn test_reg_string_conversion() {
    for i in 0..=31 {
        assert_eq!(str::parse::<Reg>(&Reg::new(i).to_string()).unwrap(), Reg::new(i))
    }
}

#[test]
fn test_fp_reg_string_conversion() {
    for i in 0..=31 {
        assert_eq!(str::parse::<FpReg>(&FpReg::new(i).to_string()).unwrap(), FpReg::new(i))
    }
}

#[test]
fn test_reg() {
    let general_registers = [
        "$0", "$1", "$2", "$3", "$4", "$5", "$6", "$7", "$8", "$9", "$10", "$11", "$12", "$13",
        "$14", "$15", "$16", "$17", "$18", "$19", "$20", "$21", "$22", "$23", "$24", "$25", "$26",
        "$27", "$28", "$29", "$30", "$31", "$zero", "$at", "$v0", "$v1", "$a0", "$a1", "$a2",
        "$a3", "$t0", "$t1", "$t2", "$t3", "$t4", "$t5", "$t6", "$t7", "$s0", "$s1", "$s2", "$s3",
        "$s4", "$s5", "$s6", "$s7", "$t8", "$t9", "$k0", "$k1", "$gp", "$sp", "$fp", "$ra",
    ];

    for case in general_registers.iter() {
        let (remain, token) = Reg::parse(Span::new(case)).unwrap();
        assert_eq!(remain.location_offset(), case.len());
        assert_eq!(token.position.location_offset(), case.len());
    }
}

#[test]
fn test_reg_shorthand() {
    let case = "$ra";
    let (remain, token) = Reg::parse(Span::new(case)).unwrap();
    assert_eq!(remain.location_offset(), case.len());
    match token.value {
        TokenValue::Register(reg) => assert_eq!(31, reg.reg_no),
        _ => panic!("not a register"),
    }
}

#[test]
fn test_float_reg() {
    let float_registers = [
        "$f0", "$f1", "$f2", "$f3", "$f4", "$f5", "$f6", "$f7", "$f8", "$f9", "$f10", "$f11",
        "$f12", "$f13", "$f14", "$f15", "$f16", "$f17", "$f18", "$f19", "$f20", "$f21", "$f22",
        "$f23", "$f24", "$f25", "$f26", "$f27", "$f28", "$f29", "$f30", "$f31",
    ];
    for case in float_registers.iter() {
        let (remain, _) = FpReg::parse(Span::new(case)).unwrap();
        assert_eq!(remain.location_offset(), case.len());
    }
}
