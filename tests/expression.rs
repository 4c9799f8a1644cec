use mips_parser::expression::{BinOp, Binary, BinaryOperation, Eval, MonOp, Operand, Unary};
use mips_parser::utils::ToSigned;

fn mapping(name: &str) -> u32 {
    match name {
        "abc" => 123,
        "deadc0de" => 0xdeadc0de,
        "deadbeef" => 0xdeadbeef,
        "one" => 1,
        _ => panic!("unknown name {}", name),
    }
}

fn op_expr(first: Operand, steps: Vec<(BinOp, Operand)>) -> Operand {
    let rest = steps
        .into_iter()
        .map(|(operator, operand)| BinaryOperation { operator, operand })
        .collect();
    Operand::Expr(Box::new(Binary { first, rest }))
}

fn op_unary(operator: MonOp, operand: Operand) -> Operand {
    Operand::Unary(Box::new(Unary { operator, operand }))
}

const ALL_OPS: [BinOp; 6] = [
    BinOp::TimesOp,
    BinOp::DivideOp,
    BinOp::PlusOp,
    BinOp::MinusOp,
    BinOp::BitAndOp,
    BinOp::BitOrOp,
];

#[test]
fn it_works() {
    assert_eq!(2 + 2, 4);
}

#[test]
fn test_constant() {
    let expr = Operand::Num(32);
    assert_eq!(32, expr.eval(|_: &str| 0).unwrap());
}

#[test]
fn test_label() {
    let expr = Operand::Var(String::from("one"));
    assert_eq!(1, expr.eval(mapping).unwrap())
}

#[test]
fn test_unary_constant() {
    let num = 0xffffffff;
    let expr = op_unary(MonOp::PosOp, Operand::Num(num));
    assert_eq!(0xffffffff, expr.eval(mapping).unwrap());

    let expr = op_unary(MonOp::NegOp, Operand::Num(num));
    assert_eq!(1, expr.eval(mapping).unwrap());

    let expr = op_unary(MonOp::BitNotOp, Operand::Num(num));
    assert_eq!(0, expr.eval(mapping).unwrap());
}

#[test]
fn test_unary_label() {
    let var = String::from("abc");
    let expr = op_unary(MonOp::PosOp, Operand::Var(var.clone()));
    assert_eq!(123, expr.eval(mapping).unwrap());

    let expr = op_unary(MonOp::NegOp, Operand::Var(var.clone()));
    assert_eq!(0xffffff85, expr.eval(mapping).unwrap());

    let expr = op_unary(MonOp::BitNotOp, Operand::Var(var.clone()));
    assert_eq!(0xffffff84, expr.eval(mapping).unwrap());
}

#[test]
fn test_expr_single() {
    let expr = op_expr(Operand::unsigned(12), vec![]);
    assert_eq!(12, expr.eval(mapping).unwrap());

    let expr = op_expr(Operand::var("abc"), vec![]);
    assert_eq!(123, expr.eval(mapping).unwrap());
}

#[test]
fn test_expr_valid_ops() {
    // 12 + -13
    let expr = op_expr(Operand::unsigned(12), vec![(BinOp::PlusOp, Operand::signed(-13))]);
    assert_eq!(-1, expr.eval(mapping).unwrap().to_i32());

    // 12 - 13
    let expr = op_expr(Operand::unsigned(12), vec![(BinOp::MinusOp, Operand::signed(13))]);
    assert_eq!(-1, expr.eval(mapping).unwrap().to_i32());

    // 12 * -1
    let expr = op_expr(Operand::unsigned(12), vec![(BinOp::TimesOp, Operand::signed(-1))]);
    assert_eq!(-12, expr.eval(mapping).unwrap().to_i32());

    // -4 / -2
    let expr = op_expr(Operand::signed(-4), vec![(BinOp::DivideOp, Operand::signed(-2))]);
    assert_eq!(2, expr.eval(mapping).unwrap().to_i32());

    // 4 / -2
    let expr = op_expr(Operand::signed(4), vec![(BinOp::DivideOp, Operand::signed(-2))]);
    assert_eq!(-2, expr.eval(mapping).unwrap().to_i32());

    // -4 / 2
    let expr = op_expr(Operand::signed(-4), vec![(BinOp::DivideOp, Operand::signed(2))]);
    assert_eq!(-2, expr.eval(mapping).unwrap().to_i32());

    // 2 / 4
    let expr = op_expr(Operand::signed(2), vec![(BinOp::DivideOp, Operand::signed(4))]);
    assert_eq!(0, expr.eval(mapping).unwrap().to_i32());

    // 0xffff0000 & -1
    let expr = op_expr(Operand::unsigned(0xffff0000), vec![(BinOp::BitAndOp, Operand::signed(-1))]);
    assert_eq!(0xffff0000, expr.eval(mapping).unwrap());

    // 0xffff0000 | -1
    let expr = op_expr(Operand::unsigned(0xffff0000), vec![(BinOp::BitOrOp, Operand::signed(-1))]);
    assert_eq!(0xffffffff, expr.eval(mapping).unwrap());
}

#[test]
fn test_expr_nested() {
    // 12 - 13 = -1
    let expr_neg1 = op_expr(Operand::unsigned(12), vec![(BinOp::PlusOp, Operand::signed(-13))]);
    assert_eq!(Operand::signed(-1).eval(mapping), expr_neg1.eval(mapping));

    // abc + abc + abc = 123 * 3 = 369
    let expr_369 = op_expr(
        Operand::var("abc"),
        vec![(BinOp::PlusOp, Operand::var("abc")), (BinOp::PlusOp, Operand::var("abc"))],
    );
    assert_eq!(369, expr_369.eval(mapping).unwrap());

    // one * deadbeef / abc
    let expr_30373402 = op_expr(
        Operand::var("one"),
        vec![(BinOp::TimesOp, Operand::var("deadbeef")), (BinOp::DivideOp, Operand::var("abc"))],
    );
    assert_eq!(-4545030, expr_30373402.eval_i32(mapping).unwrap());

    let complex = op_expr(
        expr_neg1,
        vec![(BinOp::TimesOp, expr_30373402), (BinOp::DivideOp, expr_369)],
    );
    assert_eq!(12317, complex.eval_u32(mapping).unwrap())
}

#[test]
fn test_additive_precedence() {
    for op in ALL_OPS.iter() {
        let same_precedence = BinOp::same_precedence(&BinOp::PlusOp, op);
        match op {
            BinOp::PlusOp => assert_eq!(true, same_precedence),
            BinOp::MinusOp => assert_eq!(true, same_precedence),
            _ => assert_eq!(false, same_precedence),
        };
    }

    for op in ALL_OPS.iter() {
        let same_precedence = BinOp::same_precedence(&BinOp::MinusOp, op);
        match op {
            BinOp::PlusOp => assert_eq!(true, same_precedence),
            BinOp::MinusOp => assert_eq!(true, same_precedence),
            _ => assert_eq!(false, same_precedence),
        };
    }
}

#[test]
fn test_multiplicative_precedence() {
    for op in ALL_OPS.iter() {
        let same_precedence = BinOp::same_precedence(&BinOp::DivideOp, op);
        match op {
            BinOp::TimesOp => assert_eq!(true, same_precedence),
            BinOp::DivideOp => assert_eq!(true, same_precedence),
            _ => assert_eq!(false, same_precedence),
        };
    }

    for op in ALL_OPS.iter() {
        let same_precedence = BinOp::same_precedence(&BinOp::DivideOp, op);
        match op {
            BinOp::TimesOp => assert_eq!(true, same_precedence),
            BinOp::DivideOp => assert_eq!(true, same_precedence),
            _ => assert_eq!(false, same_precedence),
        };
    }
}

#[test]
fn test_combine_same_precedence() {
    let a = op_expr(Operand::signed(-1), vec![(BinOp::PlusOp, Operand::unsigned(2))]);
    let b = op_expr(Operand::signed(3), vec![]);
    let c = Operand::combine(a, BinOp::MinusOp, b);

    if let Operand::Expr(expr) = c {
        assert_eq!(2, expr.rest.len());
        assert_eq!(BinOp::MinusOp, expr.rest[1].operator);
        assert_eq!(3, expr.rest[1].operand.eval_i32(mapping).unwrap());
    } else {
        panic!("Operand is not an expression")
    }
}

#[test]
fn test_combine_different_precedence() {
    let a = op_expr(Operand::signed(-1), vec![(BinOp::PlusOp, Operand::unsigned(2))]);
    let b = op_expr(Operand::signed(3), vec![]);
    let c = Operand::combine(a, BinOp::TimesOp, b);

    if let Operand::Expr(expr) = c {
        assert_eq!(1, expr.rest.len());
        assert_eq!(BinOp::TimesOp, expr.rest[0].operator);
        assert_eq!(3, expr.rest[0].operand.eval_i32(mapping).unwrap());
    } else {
        panic!("Operand is not an expression")
    }
}

#[test]
fn test_algebraic() {
    let a = Operand::unsigned(1);
    let res: Operand = a.plus(Operand::signed(2)).plus(Operand::signed(3));
    assert_eq!(6, res.eval_i32(mapping).unwrap());

    let a = Operand::unsigned(1);
    let res: Operand = a.plus(Operand::signed(2 * 3)).plus(Operand::var("abc"));
    assert_eq!(130, res.eval_i32(mapping).unwrap());

    let abc = Operand::var("abc");
    let abc2 = Operand::var("abc");
    let res: Operand = Operand::unsigned(1).plus(abc.times(abc2)).plus(Operand::signed(42));
    assert_eq!(15172, res.eval_i32(mapping).unwrap());
}

#[test]
fn test_date() {}
