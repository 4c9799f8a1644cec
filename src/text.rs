//! The text form of operators and operand expressions, and reading operators back.
use vstd::prelude::*;
use crate::arch::digit_text;
use crate::expression::{BinOp, Binary, BinaryOperation, MonOp, Operand, Unary};
use crate::literals::{decimal_outcome, lemma_radix_digits, lemma_radix_digits_lead, radix_digits};
use crate::parser::{atomic_outcome, expr_outcome, fold_outcome, level_outcome, numeral_outcome, operand_outcome, parse_outcome, spaces, unary_outcome};
use crate::tree::{steps_of, tree_of, Tree};

verus! {

broadcast use vstd::std_specs::vec::group_vec_axioms, vstd::seq::group_seq_axioms;

/// How a unary operator is written.
pub open spec fn monop_text(op: MonOp) -> Seq<char> {
    match op {
        MonOp::PosOp => seq!['+'],
        MonOp::NegOp => seq!['-'],
        MonOp::BitNotOp => seq!['~'],
    }
}

/// How a binary operator is written.
pub open spec fn binop_text(op: BinOp) -> Seq<char> {
    match op {
        BinOp::TimesOp => seq!['*'],
        BinOp::DivideOp => seq!['/'],
        BinOp::PlusOp => seq!['+'],
        BinOp::MinusOp => seq!['-'],
        BinOp::BitAndOp => seq!['&'],
        BinOp::BitOrOp => seq!['|'],
    }
}

/// The text of an expression tree: names as they are, numbers in decimal, a
/// unary operator right before its operand, and a chain in parentheses with
/// each step written as its operator followed by its operand.
pub open spec fn tree_text(t: Tree) -> Seq<char>
    decreases t,
{
    match t {
        Tree::Var(name) => name,
        Tree::Num(v) => radix_digits(v as nat, 10),
        Tree::Unary(op, x) => monop_text(op) + tree_text(*x),
        Tree::Chain(first, steps) => seq!['('] + tree_text(*first) + steps_text(steps) + seq![')'],
    }
}

/// The text of the steps of a chain.
pub open spec fn steps_text(steps: Seq<(BinOp, Tree)>) -> Seq<char>
    decreases steps,
{
    if steps.len() == 0 {
        Seq::empty()
    } else {
        steps_text(steps.drop_last()) + binop_text(steps.last().0) + tree_text(steps.last().1)
    }
}

/// The decimal numeral of `n`.
pub fn decimal_string(n: u32) -> (r: String)
    ensures
        r@ == radix_digits(n as nat, 10),
    decreases n,
{
    if n < 10 {
        String::from_str(digit_text(n))
    } else {
        let mut t = decimal_string(n / 10);
        t.append(digit_text(n % 10));
        proof {
            assert(t@ =~= radix_digits(n as nat, 10));
        }
        t
    }
}

impl MonOp {
    /// How this operator is written.
    pub fn to_string(&self) -> (r: String)
        ensures
            r@ == monop_text(*self),
    {
        proof {
            reveal_strlit("+");
            reveal_strlit("-");
            reveal_strlit("~");
        }
        match self {
            MonOp::PosOp => String::from_str("+"),
            MonOp::NegOp => String::from_str("-"),
            MonOp::BitNotOp => String::from_str("~"),
        }
    }
}

impl BinOp {
    /// How this operator is written.
    pub fn to_string(&self) -> (r: String)
        ensures
            r@ == binop_text(*self),
    {
        proof {
            reveal_strlit("*");
            reveal_strlit("/");
            reveal_strlit("+");
            reveal_strlit("-");
            reveal_strlit("&");
            reveal_strlit("|");
        }
        match self {
            BinOp::TimesOp => String::from_str("*"),
            BinOp::DivideOp => String::from_str("/"),
            BinOp::PlusOp => String::from_str("+"),
            BinOp::MinusOp => String::from_str("-"),
            BinOp::BitAndOp => String::from_str("&"),
            BinOp::BitOrOp => String::from_str("|"),
        }
    }
}

fn write_operand(op: &Operand, out: &mut String)
    ensures
        final(out)@ == old(out)@ + tree_text(tree_of(*op)),
    decreases op,
{
    match op {
        Operand::Var(name) => {
            out.append(name.as_str());
        },
        Operand::Num(v) => {
            let digits = decimal_string(*v);
            out.append(digits.as_str());
        },
        Operand::Unary(u) => {
            let sym = u.operator.to_string();
            out.append(sym.as_str());
            write_operand(&u.operand, out);
            proof {
                assert(final(out)@ =~= old(out)@ + tree_text(tree_of(*op)));
            }
        },
        Operand::Expr(b) => {
            write_chain(b, out);
        },
    }
}

fn write_chain(b: &Binary, out: &mut String)
    ensures
        final(out)@ == old(out)@ + tree_text(Tree::Chain(Box::new(tree_of(b.first)), steps_of(b.rest@))),
    decreases b,
{
    proof {
        reveal_strlit("(");
        reveal_strlit(")");
    }
    let ghost start = out@;
    out.append("(");
    write_operand(&b.first, out);
    let mut i: usize = 0;
    while i < b.rest.len()
        invariant
            i <= b.rest.len(),
            out@ == start + seq!['('] + tree_text(tree_of(b.first)) + steps_text(steps_of(b.rest@.take(i as int))),
        decreases b.rest.len() - i,
    {
        let step: &BinaryOperation = &b.rest[i];
        let sym = step.operator.to_string();
        let ghost before = out@;
        out.append(sym.as_str());
        write_operand(&step.operand, out);
        proof {
            let pre = b.rest@.take(i as int);
            let cur = b.rest@.take(i + 1);
            assert(cur.drop_last() =~= pre);
            assert(cur.last() == *step);
            let st = steps_of(cur);
            crate::tree::lemma_steps_of(cur);
            assert(st.drop_last() =~= steps_of(pre));
            assert(out@ =~= start + seq!['('] + tree_text(tree_of(b.first)) + steps_text(st));
        }
        i = i + 1;
    }
    out.append(")");
    proof {
        assert(b.rest@.take(b.rest.len() as int) =~= b.rest@);
        assert(out@ =~= start + tree_text(Tree::Chain(Box::new(tree_of(b.first)), steps_of(b.rest@))));
    }
}

impl Operand {
    /// The text of this expression (see `tree_text`): for a number, its
    /// decimal numeral.
    pub fn to_string(&self) -> (r: String)
        ensures
            r@ == tree_text(self@),
    {
        let mut out = String::new();
        write_operand(self, &mut out);
        proof {
            assert(out@ =~= tree_text(self@));
        }
        out
    }
}

/// Every level of the grammar reads the canonical numeral of `n` whole, as
/// the number `n`.
proof fn lemma_numeral_levels(n: u32)
    ensures
        ({
            let s = radix_digits(n as nat, 10);
            &&& level_outcome(s, 0) == (crate::error::Outcome::Done { len: s.len(), value: Tree::Num(n) })
            &&& level_outcome(s, 1) == (crate::error::Outcome::Done { len: s.len(), value: Tree::Num(n) })
            &&& level_outcome(s, 2) == (crate::error::Outcome::Done { len: s.len(), value: Tree::Num(n) })
            &&& level_outcome(s, 3) == (crate::error::Outcome::Done { len: s.len(), value: Tree::Num(n) })
        }),
{
    let s = radix_digits(n as nat, 10);
    let done = crate::error::Outcome::Done { len: s.len(), value: Tree::Num(n) };
    lemma_radix_digits(n as nat, 10);
    crate::literals::law_decimal_round_trip(n);
    if n >= 1 {
        lemma_radix_digits_lead(n as nat, 10);
    }
    assert(s[0] != '\'' && s[0] != '(' && s[0] != ' ' && s[0] != '\t');
    assert(s[0] != '+' && s[0] != '-' && s[0] != '~');
    assert(s.len() >= 2 ==> s[0] != '0');
    assert(numeral_outcome(s) == (crate::error::Outcome::Done { len: s.len(), value: n }));
    assert(spaces(s) == 0);
    assert(s.skip(0) =~= s);
    assert(s.skip(s.len() as int) =~= Seq::<char>::empty());
    assert(spaces(s.skip(s.len() as int)) == 0);
    assert(atomic_outcome(s) == done);
    assert(unary_outcome(s) == done);
    assert(operand_outcome(s, 0) == done);
    assert(fold_outcome(s, 0, s.len(), Tree::Num(n)) == done);
    assert(level_outcome(s, 0) == done);
    assert(operand_outcome(s, 1) == done);
    assert(fold_outcome(s, 1, s.len(), Tree::Num(n)) == done);
    assert(level_outcome(s, 1) == done);
    assert(operand_outcome(s, 2) == done);
    assert(fold_outcome(s, 2, s.len(), Tree::Num(n)) == done);
    assert(level_outcome(s, 2) == done);
    assert(operand_outcome(s, 3) == done);
    assert(fold_outcome(s, 3, s.len(), Tree::Num(n)) == done);
}

/// Writing a number and parsing the text back gives the same number.
pub proof fn law_number_text_round_trip(n: u32)
    ensures
        parse_outcome(tree_text(Tree::Num(n))) == Ok::<Tree, (crate::error::ErrorKind, nat)>(Tree::Num(n)),
{
    lemma_numeral_levels(n);
}

/// The unary operator that the whole text `t` writes.
pub open spec fn monop_from_text(t: Seq<char>) -> Option<MonOp> {
    if t.len() != 1 {
        None
    } else if t[0] == '+' {
        Some(MonOp::PosOp)
    } else if t[0] == '-' {
        Some(MonOp::NegOp)
    } else if t[0] == '~' {
        Some(MonOp::BitNotOp)
    } else {
        None
    }
}

/// The binary operator that the whole text `t` writes.
pub open spec fn binop_from_text(t: Seq<char>) -> Option<BinOp> {
    if t.len() != 1 {
        None
    } else if t[0] == '*' {
        Some(BinOp::TimesOp)
    } else if t[0] == '/' {
        Some(BinOp::DivideOp)
    } else if t[0] == '+' {
        Some(BinOp::PlusOp)
    } else if t[0] == '-' {
        Some(BinOp::MinusOp)
    } else if t[0] == '&' {
        Some(BinOp::BitAndOp)
    } else if t[0] == '|' {
        Some(BinOp::BitOrOp)
    } else {
        None
    }
}

/// The single character of `s`, if it has exactly one.
fn single_char(s: &str) -> (r: Option<char>)
    ensures
        r == (if s@.len() == 1 { Some(s@[0]) } else { None::<char> }),
{
    if s.unicode_len() == 1 {
        Some(s.get_char(0))
    } else {
        None
    }
}

impl MonOp {
    /// The unary operator written `s`.
    pub fn from_symbol(s: &str) -> (r: Option<MonOp>)
        ensures
            r == monop_from_text(s@),
    {
        let c = match single_char(s) {
            Some(c) => c,
            None => return None,
        };
        if c == '+' {
            Some(MonOp::PosOp)
        } else if c == '-' {
            Some(MonOp::NegOp)
        } else if c == '~' {
            Some(MonOp::BitNotOp)
        } else {
            None
        }
    }
}

impl BinOp {
    /// The binary operator written `s`.
    pub fn from_symbol(s: &str) -> (r: Option<BinOp>)
        ensures
            r == binop_from_text(s@),
    {
        let c = match single_char(s) {
            Some(c) => c,
            None => return None,
        };
        if c == '*' {
            Some(BinOp::TimesOp)
        } else if c == '/' {
            Some(BinOp::DivideOp)
        } else if c == '+' {
            Some(BinOp::PlusOp)
        } else if c == '-' {
            Some(BinOp::MinusOp)
        } else if c == '&' {
            Some(BinOp::BitAndOp)
        } else if c == '|' {
            Some(BinOp::BitOrOp)
        } else {
            None
        }
    }
}

impl core::str::FromStr for MonOp {
    type Err = ();

    /// The operator written `s`.
    fn from_str(s: &str) -> (r: Result<MonOp, ()>)
        ensures
            r == (match monop_from_text(s@) {
                Some(op) => Ok(op),
                None => Err(()),
            }),
    {
        match MonOp::from_symbol(s) {
            Some(op) => Ok(op),
            None => Err(()),
        }
    }
}

impl core::str::FromStr for BinOp {
    type Err = ();

    /// The operator written `s`.
    fn from_str(s: &str) -> (r: Result<BinOp, ()>)
        ensures
            r == (match binop_from_text(s@) {
                Some(op) => Ok(op),
                None => Err(()),
            }),
    {
        match BinOp::from_symbol(s) {
            Some(op) => Ok(op),
            None => Err(()),
        }
    }
}

/// Each operator is read back from the way it is written.
pub proof fn law_operator_text_round_trip(m: MonOp, b: BinOp)
    ensures
        monop_from_text(monop_text(m)) == Some(m),
        binop_from_text(binop_text(b)) == Some(b),
{
}

} // verus!
