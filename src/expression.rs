//! Operand expression trees, the rules that build them, and their evaluation.
use vstd::prelude::*;
use crate::utils::{signed_value, wrap32, ToSigned, ToUnsigned, WORD_MODULUS};
use crate::tree::{combine_tree, lemma_combination_tree};

verus! {

broadcast use vstd::std_specs::vec::group_vec_axioms, vstd::seq::group_seq_axioms;

/// Unary operators.
#[derive(Clone, Copy, Debug, PartialEq, Eq, Structural)]
pub enum MonOp {
    PosOp,
    NegOp,
    BitNotOp,
}

/// Binary operators. They fall into four precedence tiers, from the
/// tightest binding: multiplicative, additive, bitwise and, bitwise or.
#[derive(Clone, Copy, Debug, PartialEq, Eq, Structural)]
pub enum BinOp {
    TimesOp,
    DivideOp,
    PlusOp,
    MinusOp,
    BitAndOp,
    BitOrOp,
}

/// The precedence tier of an operator: 0 binds tightest.
pub open spec fn tier(op: BinOp) -> nat {
    match op {
        BinOp::TimesOp | BinOp::DivideOp => 0,
        BinOp::PlusOp | BinOp::MinusOp => 1,
        BinOp::BitAndOp => 2,
        BinOp::BitOrOp => 3,
    }
}

impl BinOp {
    /// The precedence tier of this operator (0 binds tightest).
    pub fn precedence(&self) -> (r: u8)
        ensures
            r as nat == tier(*self),
    {
        match self {
            BinOp::TimesOp | BinOp::DivideOp => 0,
            BinOp::PlusOp | BinOp::MinusOp => 1,
            BinOp::BitAndOp => 2,
            BinOp::BitOrOp => 3,
        }
    }

    /// Both operators belong to the same precedence tier.
    pub fn same_precedence(lhs: &BinOp, rhs: &BinOp) -> (r: bool)
        ensures
            r == (tier(*lhs) == tier(*rhs)),
    {
        lhs.precedence() == rhs.precedence()
    }
}

/// A unary operator applied to an operand.
#[derive(Debug)]
pub struct Unary {
    pub operator: MonOp,
    pub operand: Operand,
}

/// One `(operator, operand)` step of a chain: in `1 + 2 - 3` the steps are
/// `+ 2` and `- 3`.
#[derive(Debug)]
pub struct BinaryOperation {
    pub operator: BinOp,
    pub operand: Operand,
}

/// A left operand followed by steps that are applied from left to right.
#[derive(Debug)]
pub struct Binary {
    pub first: Operand,
    pub rest: Vec<BinaryOperation>,
}

/// An operand expression: a named value resolved at evaluation time, a
/// 32-bit pattern, a unary application, or a chain of binary steps.
#[derive(Debug)]
pub enum Operand {
    Var(String),
    Num(u32),
    Unary(Box<Unary>),
    Expr(Box<Binary>),
}

/// The value of a binary step on two 32-bit patterns, or `None` for a
/// division by zero. Addition, subtraction and the bitwise operators work on
/// the unsigned patterns; multiplication and division read both patterns as
/// signed integers, divide truncating toward zero, and wrap the result.
pub open spec fn apply_binop(op: BinOp, a: u32, b: u32) -> Option<u32> {
    match op {
        BinOp::PlusOp => Some(wrap32(a + b)),
        BinOp::MinusOp => Some(wrap32(a - b)),
        BinOp::TimesOp => Some(wrap32(signed_value(a) * signed_value(b))),
        BinOp::DivideOp => if b == 0 {
            None
        } else {
            Some(wrap32(truncated_div(signed_value(a), signed_value(b))))
        },
        BinOp::BitAndOp => Some(a & b),
        BinOp::BitOrOp => Some(a | b),
    }
}

/// Integer division that rounds toward zero.
pub open spec fn truncated_div(a: int, b: int) -> int {
    let q: int = vstd::math::abs(a) as int / vstd::math::abs(b) as int;
    if (a < 0) != (b < 0) {
        -q
    } else {
        q
    }
}

/// The value of a unary operator on a 32-bit pattern.
pub open spec fn apply_monop(op: MonOp, a: u32) -> u32 {
    match op {
        MonOp::PosOp => a,
        MonOp::NegOp => wrap32(-a),
        MonOp::BitNotOp => !a,
    }
}

/// The value of an operand when each name `n` stands for `env(n)`, or `None`
/// when a division by zero occurs in it.
pub open spec fn value_in(op: Operand, env: spec_fn(Seq<char>) -> u32) -> Option<u32>
    decreases op,
{
    match op {
        Operand::Var(name) => Some(env(name@)),
        Operand::Num(v) => Some(v),
        Operand::Unary(u) => match value_in(u.operand, env) {
            Some(v) => Some(apply_monop(u.operator, v)),
            None => None,
        },
        Operand::Expr(b) => chain_value(*b, b.rest.len() as int, env),
    }
}

/// The value of the chain `b` cut after its first `n` steps: `b.first`
/// with `b.rest[0..n]` applied from left to right.
pub open spec fn chain_value(b: Binary, n: int, env: spec_fn(Seq<char>) -> u32) -> Option<u32>
    decreases b, n,
{
    if n <= 0 || n > b.rest.len() {
        value_in(b.first, env)
    } else {
        let step = b.rest@[n - 1];
        match chain_value(b, n - 1, env) {
            Some(acc) => match value_in(step.operand, env) {
                Some(v) => apply_binop(step.operator, acc, v),
                None => None,
            },
            None => None,
        }
    }
}

/// Why an evaluation failed.
#[derive(Clone, Copy, Debug, PartialEq, Eq, Structural)]
pub enum EvalError {
    /// A division whose divisor evaluated to zero.
    DivisionByZero,
}

/// The outcome of evaluation for a value computed by `value_in`.
pub open spec fn as_result(v: Option<u32>) -> Result<u32, EvalError> {
    match v {
        Some(x) => Ok(x),
        None => Err(EvalError::DivisionByZero),
    }
}

/// `resolve` may be called on every name.
pub open spec fn resolves_all<F: Fn(&str) -> u32>(resolve: F) -> bool {
    forall|name: &str| #[trigger] resolve.requires((name,))
}

/// Whatever `resolve` returns for a name `n` is `env(n)`.
pub open spec fn resolves_as<F: Fn(&str) -> u32>(resolve: F, env: spec_fn(Seq<char>) -> u32) -> bool {
    forall|name: &str, v: u32| #[trigger] resolve.ensures((name,), v) ==> v == env(name@)
}

/// A binary step on two 32-bit patterns.
pub fn apply_binary(op: BinOp, a: u32, b: u32) -> (r: Result<u32, EvalError>)
    ensures
        r == as_result(apply_binop(op, a, b)),
{
    let m: u64 = WORD_MODULUS;
    match op {
        BinOp::PlusOp => Ok(((a as u64 + b as u64) % m) as u32),
        BinOp::MinusOp => {
            proof {
                assert((a as int - b as int) % (m as int) == (a as int + m as int - b as int) % (m as int)) by {
                    vstd::arithmetic::div_mod::lemma_mod_add_multiples_vanish(a as int - b as int, m as int);
                }
            }
            Ok(((a as u64 + m - b as u64) % m) as u32)
        },
        BinOp::TimesOp => {
            proof {
                let sa = signed_value(a);
                let sb = signed_value(b);
                assert(sa % (m as int) == a as int);
                assert(sb % (m as int) == b as int);
                vstd::arithmetic::div_mod::lemma_mul_mod_noop_general(sa, sb, m as int);
                assert((a as int * b as int) < (m as int) * (m as int)) by (nonlinear_arith)
                    requires a < m, b < m;
            }
            Ok(((a as u64 * b as u64) % m) as u32)
        },
        BinOp::DivideOp => {
            if b == 0 {
                return Err(EvalError::DivisionByZero);
            }
            let sa = a.to_i32() as i64;
            let sb = b.to_i32() as i64;
            let ua: u64 = if sa < 0 { (-sa) as u64 } else { sa as u64 };
            let ub: u64 = if sb < 0 { (-sb) as u64 } else { sb as u64 };
            let q: u64 = ua / ub;
            proof {
                assert(ub >= 1);
                assert(q <= ua) by {
                    vstd::arithmetic::div_mod::lemma_div_is_ordered_by_denominator(ua as int, 1, ub as int);
                }
                assert(q as int == vstd::math::abs(sa as int) as int / vstd::math::abs(sb as int) as int);
            }
            if (sa < 0) != (sb < 0) {
                if q == 0 {
                    Ok(0)
                } else {
                    Ok((m - q) as u32)
                }
            } else {
                Ok(q as u32)
            }
        },
        BinOp::BitAndOp => Ok(a & b),
        BinOp::BitOrOp => Ok(a | b),
    }
}

/// A unary operator on a 32-bit pattern.
pub fn apply_unary(op: MonOp, a: u32) -> (r: u32)
    ensures
        r == apply_monop(op, a),
{
    match op {
        MonOp::PosOp => a,
        MonOp::NegOp => ((WORD_MODULUS - a as u64) % WORD_MODULUS) as u32,
        MonOp::BitNotOp => !a,
    }
}

fn eval_operand<F: Fn(&str) -> u32>(op: &Operand, resolve: &F) -> (r: Result<u32, EvalError>)
    requires
        resolves_all(*resolve),
    ensures
        forall|env: spec_fn(Seq<char>) -> u32| #[trigger]
            resolves_as(*resolve, env) ==> r == as_result(value_in(*op, env)),
    decreases op,
{
    match op {
        Operand::Var(name) => Ok(resolve(name.as_str())),
        Operand::Num(v) => Ok(*v),
        Operand::Unary(u) => {
            let v = eval_operand(&u.operand, resolve)?;
            Ok(apply_unary(u.operator, v))
        },
        Operand::Expr(b) => eval_chain(b, resolve),
    }
}

fn eval_chain<F: Fn(&str) -> u32>(b: &Binary, resolve: &F) -> (r: Result<u32, EvalError>)
    requires
        resolves_all(*resolve),
    ensures
        forall|env: spec_fn(Seq<char>) -> u32| #[trigger]
            resolves_as(*resolve, env) ==> r == as_result(chain_value(*b, b.rest.len() as int, env)),
    decreases b,
{
    let mut acc = match eval_operand(&b.first, resolve) {
        Ok(v) => v,
        Err(e) => {
            proof {
                assert forall|env: spec_fn(Seq<char>) -> u32| #[trigger]
                    resolves_as(*resolve, env) implies chain_value(*b, b.rest.len() as int, env) is None by {
                    lemma_chain_stuck(*b, 0, b.rest.len() as int, env);
                }
            }
            return Err(e);
        },
    };
    let mut i: usize = 0;
    while i < b.rest.len()
        invariant
            resolves_all(*resolve),
            i <= b.rest.len(),
            forall|env: spec_fn(Seq<char>) -> u32| #[trigger]
                resolves_as(*resolve, env) ==> chain_value(*b, i as int, env) == Some(acc),
        decreases b.rest.len() - i,
    {
        let step = &b.rest[i];
        let v = match eval_operand(&step.operand, resolve) {
            Ok(v) => v,
            Err(e) => {
                proof {
                    assert forall|env: spec_fn(Seq<char>) -> u32| #[trigger]
                        resolves_as(*resolve, env) implies chain_value(*b, b.rest.len() as int, env) is None by {
                        lemma_chain_stuck(*b, i as int + 1, b.rest.len() as int, env);
                    }
                }
                return Err(e);
            },
        };
        acc = match apply_binary(step.operator, acc, v) {
            Ok(x) => x,
            Err(e) => {
                proof {
                    assert forall|env: spec_fn(Seq<char>) -> u32| #[trigger]
                        resolves_as(*resolve, env) implies chain_value(*b, b.rest.len() as int, env) is None by {
                        lemma_chain_stuck(*b, i as int + 1, b.rest.len() as int, env);
                    }
                }
                return Err(e);
            },
        };
        i = i + 1;
    }
    Ok(acc)
}

/// Once a prefix of a chain fails, every longer prefix fails.
proof fn lemma_chain_stuck(b: Binary, i: int, n: int, env: spec_fn(Seq<char>) -> u32)
    requires
        0 <= i <= n <= b.rest.len(),
        chain_value(b, i, env) is None,
    ensures
        chain_value(b, n, env) is None,
    decreases n - i,
{
    if i < n {
        lemma_chain_stuck(b, i + 1, n, env);
    }
}

/// The signed reading of an evaluation outcome.
pub open spec fn as_signed_result(v: Option<u32>) -> Result<i32, EvalError> {
    match v {
        Some(x) => Ok(signed_value(x) as i32),
        None => Err(EvalError::DivisionByZero),
    }
}

/// Evaluation against a resolver that gives each name its 32-bit value.
///
/// A resolver is described by the environments it agrees with: whenever
/// `resolve` gives `env(n)` for each name `n`, the outcome is the value
/// that `value` assigns under `env`.
pub trait Eval {
    spec fn value(&self, env: spec_fn(Seq<char>) -> u32) -> Option<u32>;

    /// The 32-bit pattern of this expression.
    fn eval<F: Fn(&str) -> u32>(&self, resolve: F) -> (r: Result<u32, EvalError>)
        requires
            resolves_all(resolve),
        ensures
            forall|env: spec_fn(Seq<char>) -> u32| #[trigger]
                resolves_as(resolve, env) ==> r == as_result(self.value(env)),
    ;

    /// The value read as an unsigned integer.
    fn eval_u32<F: Fn(&str) -> u32>(&self, resolve: F) -> (r: Result<u32, EvalError>)
        requires
            resolves_all(resolve),
        ensures
            forall|env: spec_fn(Seq<char>) -> u32| #[trigger]
                resolves_as(resolve, env) ==> r == as_result(self.value(env)),
    {
        self.eval(resolve)
    }

    /// The value read as a signed (two's-complement) integer.
    fn eval_i32<F: Fn(&str) -> u32>(&self, resolve: F) -> (r: Result<i32, EvalError>)
        requires
            resolves_all(resolve),
        ensures
            forall|env: spec_fn(Seq<char>) -> u32| #[trigger]
                resolves_as(resolve, env) ==> r == as_signed_result(self.value(env)),
    {
        match self.eval(resolve) {
            Ok(v) => Ok(v.to_i32()),
            Err(e) => Err(e),
        }
    }
}

impl Eval for Operand {
    open spec fn value(&self, env: spec_fn(Seq<char>) -> u32) -> Option<u32> {
        value_in(*self, env)
    }

    fn eval<F: Fn(&str) -> u32>(&self, resolve: F) -> (r: Result<u32, EvalError>) {
        eval_operand(self, &resolve)
    }
}

impl Eval for Unary {
    open spec fn value(&self, env: spec_fn(Seq<char>) -> u32) -> Option<u32> {
        match value_in(self.operand, env) {
            Some(v) => Some(apply_monop(self.operator, v)),
            None => None,
        }
    }

    fn eval<F: Fn(&str) -> u32>(&self, resolve: F) -> (r: Result<u32, EvalError>) {
        let v = eval_operand(&self.operand, &resolve)?;
        Ok(apply_unary(self.operator, v))
    }
}

impl Eval for Binary {
    open spec fn value(&self, env: spec_fn(Seq<char>) -> u32) -> Option<u32> {
        chain_value(*self, self.rest.len() as int, env)
    }

    fn eval<F: Fn(&str) -> u32>(&self, resolve: F) -> (r: Result<u32, EvalError>) {
        eval_chain(self, &resolve)
    }
}

/// The tree that `combine(lhs, operator, rhs)` builds: when `lhs` is a chain
/// whose last step is of the same precedence tier as `operator`, the chain
/// grows by the step `operator rhs`; otherwise a new chain starts with `lhs`
/// as its first operand and `operator rhs` as its only step.
pub open spec fn is_combination(lhs: Operand, operator: BinOp, rhs: Operand, r: Operand) -> bool {
    let step = BinaryOperation { operator, operand: rhs };
    if extends_chain(lhs, operator) {
        &&& r is Expr
        &&& r->Expr_0.first == lhs->Expr_0.first
        &&& r->Expr_0.rest@ == lhs->Expr_0.rest@.push(step)
    } else {
        &&& r is Expr
        &&& r->Expr_0.first == lhs
        &&& r->Expr_0.rest@ == seq![step]
    }
}

/// `lhs` is a chain with at least one step, and its last step has the tier
/// of `operator`.
pub open spec fn extends_chain(lhs: Operand, operator: BinOp) -> bool {
    &&& lhs is Expr
    &&& lhs->Expr_0.rest.len() > 0
    &&& tier(lhs->Expr_0.rest@.last().operator) == tier(operator)
}

/// All steps of a chain share one precedence tier.
pub open spec fn single_tier(b: Binary) -> bool {
    forall|i: int| 0 <= i < b.rest.len() ==> tier(#[trigger] b.rest@[i].operator) == tier(b.rest@[0].operator)
}

impl Operand {
    /// The number with the given unsigned value.
    pub fn unsigned(num: u32) -> (r: Operand)
        ensures
            r == Operand::Num(num),
    {
        Operand::Num(num)
    }

    /// A named value, resolved at evaluation time.
    pub fn var(name: &str) -> (r: Operand)
        ensures
            r is Var,
            r->Var_0@ == name@,
    {
        Operand::Var(name.to_owned())
    }

    /// The number with the bit pattern of the given signed value.
    pub fn signed(num: i32) -> (r: Operand)
        ensures
            r == Operand::Num(wrap32(num as int)),
    {
        Operand::Num(num.to_u32())
    }

    /// The unary plus: the operand itself, since `+x` is `x`.
    pub fn positive(self) -> (r: Operand)
        ensures
            r == self,
    {
        self
    }

    /// The unary minus applied to this operand.
    pub fn negative(self) -> (r: Operand)
        ensures
            r == Operand::Unary(Box::new(Unary { operator: MonOp::NegOp, operand: self })),
    {
        Operand::Unary(Box::new(Unary { operator: MonOp::NegOp, operand: self }))
    }

    /// The bitwise complement applied to this operand.
    pub fn complement(self) -> (r: Operand)
        ensures
            r == Operand::Unary(Box::new(Unary { operator: MonOp::BitNotOp, operand: self })),
    {
        Operand::Unary(Box::new(Unary { operator: MonOp::BitNotOp, operand: self }))
    }

    /// Joins `lhs` and `rhs` with `operator`, keeping chains of one tier flat:
    /// `a + b + c` is one chain of two steps, while `(a + b) * c` nests the
    /// chain `a + b` as the first operand of a new chain.
    pub fn combine(lhs: Operand, operator: BinOp, rhs: Operand) -> (r: Operand)
        ensures
            is_combination(lhs, operator, rhs, r),
            r@ == combine_tree(lhs@, operator, rhs@),
            lhs is Expr && single_tier(*lhs->Expr_0) ==> single_tier(*r->Expr_0),
            !(lhs is Expr) ==> single_tier(*r->Expr_0),
    {
        let ghost (l, rh) = (lhs, rhs);
        let r = Operand::join(lhs, operator, rhs);
        proof {
            lemma_combination_tree(l, operator, rh, r);
        }
        r
    }

    fn join(lhs: Operand, operator: BinOp, rhs: Operand) -> (r: Operand)
        ensures
            is_combination(lhs, operator, rhs, r),
            lhs is Expr && single_tier(*lhs->Expr_0) ==> single_tier(*r->Expr_0),
            !(lhs is Expr) ==> single_tier(*r->Expr_0),
    {
        let step = BinaryOperation { operator, operand: rhs };
        match lhs {
            Operand::Expr(mut b) => {
                let n = b.rest.len();
                if n > 0 && BinOp::same_precedence(&b.rest[n - 1].operator, &operator) {
                    let ghost old_rest = b.rest@;
                    b.rest.push(step);
                    proof {
                        assert(b.rest@ == old_rest.push(BinaryOperation { operator, operand: rhs }));
                    }
                    Operand::Expr(b)
                } else {
                    let mut rest = Vec::new();
                    rest.push(step);
                    Operand::Expr(Box::new(Binary { first: Operand::Expr(b), rest }))
                }
            },
            _ => {
                let mut rest = Vec::new();
                rest.push(step);
                Operand::Expr(Box::new(Binary { first: lhs, rest }))
            },
        }
    }
}

impl Operand {
    /// `self + rhs`, built as `combine` builds it.
    pub fn plus(self, rhs: Operand) -> (r: Operand)
        ensures
            is_combination(self, BinOp::PlusOp, rhs, r),
    {
        Operand::combine(self, BinOp::PlusOp, rhs)
    }

    /// `self - rhs`, built as `combine` builds it.
    pub fn minus(self, rhs: Operand) -> (r: Operand)
        ensures
            is_combination(self, BinOp::MinusOp, rhs, r),
    {
        Operand::combine(self, BinOp::MinusOp, rhs)
    }

    /// `self * rhs`, built as `combine` builds it.
    pub fn times(self, rhs: Operand) -> (r: Operand)
        ensures
            is_combination(self, BinOp::TimesOp, rhs, r),
    {
        Operand::combine(self, BinOp::TimesOp, rhs)
    }

    /// `self / rhs`, built as `combine` builds it.
    pub fn divide(self, rhs: Operand) -> (r: Operand)
        ensures
            is_combination(self, BinOp::DivideOp, rhs, r),
    {
        Operand::combine(self, BinOp::DivideOp, rhs)
    }

    /// `self & rhs`, built as `combine` builds it.
    pub fn bit_and(self, rhs: Operand) -> (r: Operand)
        ensures
            is_combination(self, BinOp::BitAndOp, rhs, r),
    {
        Operand::combine(self, BinOp::BitAndOp, rhs)
    }

    /// `self | rhs`, built as `combine` builds it.
    pub fn bit_or(self, rhs: Operand) -> (r: Operand)
        ensures
            is_combination(self, BinOp::BitOrOp, rhs, r),
    {
        Operand::combine(self, BinOp::BitOrOp, rhs)
    }
}

/// Joining a chain with an operator of another tier than its last step
/// nests the chain: the result is a new chain whose first operand is the old
/// one and whose only step is the new one.
pub proof fn law_tier_split(lhs: Operand, operator: BinOp, rhs: Operand, r: Operand)
    requires
        is_combination(lhs, operator, rhs, r),
        lhs is Expr,
        lhs->Expr_0.rest.len() > 0,
        tier(lhs->Expr_0.rest@.last().operator) != tier(operator),
    ensures
        r is Expr,
        r->Expr_0.first == lhs,
        r->Expr_0.rest.len() == 1,
        r->Expr_0.rest@[0] == (BinaryOperation { operator, operand: rhs }),
{
}

/// Joining a chain with an operator of the tier of its last step keeps it
/// flat: the same first operand, and one more step at the end.
pub proof fn law_same_tier_flattening(lhs: Operand, operator: BinOp, rhs: Operand, r: Operand)
    requires
        is_combination(lhs, operator, rhs, r),
        lhs is Expr,
        lhs->Expr_0.rest.len() > 0,
        tier(lhs->Expr_0.rest@.last().operator) == tier(operator),
    ensures
        r is Expr,
        r->Expr_0.first == lhs->Expr_0.first,
        r->Expr_0.rest.len() == lhs->Expr_0.rest.len() + 1,
        r->Expr_0.rest@.take(lhs->Expr_0.rest.len() as int) == lhs->Expr_0.rest@,
        r->Expr_0.rest@.last() == (BinaryOperation { operator, operand: rhs }),
{
    assert(r->Expr_0.rest@.take(lhs->Expr_0.rest.len() as int) =~= lhs->Expr_0.rest@);
}

} // verus!
