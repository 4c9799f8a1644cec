//! The precedence-climbing operand expression grammar.
use vstd::prelude::*;
use crate::arch::{float_index_of, float_register_index, general_index_of, general_register_index};
use crate::error::{ErrorKind, GrammarKind, IResult, MIPSLangError, Outcome, ParseErr, is_outcome, fails_with};
use crate::expression::{BinOp, MonOp, Operand, Unary};
use crate::literals::{binary, binary_outcome, char_outcome, decimal, decimal_outcome, hexadecimal,
    hexadecimal_outcome, parse_char};
use crate::span::{all_ascii, is_ascii_char, lemma_span_after_add, lemma_span_after_zero, span_after, Span};
use crate::tree::{combine_tree, lemma_combine_well_tiered, well_tiered, Tree};

verus! {

broadcast use vstd::seq::group_seq_axioms;

// ---------------------------------------------------------------------
// The grammar, read as functions from the remaining text to an outcome.
//
//     bit_or_expr  := bit_and_expr ( '|' bit_and_expr )*
//     bit_and_expr := add_expr     ( '&' add_expr )*
//     add_expr     := mul_expr     ( ('+'|'-') mul_expr )*
//     mul_expr     := unary_expr   ( ('*'|'/') unary_expr )*
//     unary_expr   := ('+'|'-'|'~') atomic_expr | atomic_expr
//     atomic_expr  := numeral | identifier | '(' bit_or_expr ')'
//
// Tiers 0 to 3 name the binary levels from `mul_expr` to `bit_or_expr`.
// Spaces and tabs may stand around atomic operands and before a unary
// operator.
// ---------------------------------------------------------------------

/// Number of spaces and tabs at the start of `t`.
pub open spec fn spaces(t: Seq<char>) -> nat
    decreases t.len(),
{
    if t.len() > 0 && (t[0] == ' ' || t[0] == '\t') {
        1 + spaces(t.drop_first())
    } else {
        0
    }
}

/// A character that may start an identifier.
pub open spec fn is_ident_start(c: char) -> bool {
    ('a' <= c <= 'z') || ('A' <= c <= 'Z') || c == '_' || c == '$'
}

/// A character that may continue an identifier.
pub open spec fn is_ident_char(c: char) -> bool {
    is_ident_start(c) || ('0' <= c <= '9')
}

/// Number of identifier characters at the start of `t`.
pub open spec fn ident_run(t: Seq<char>) -> nat
    decreases t.len(),
{
    if t.len() > 0 && is_ident_char(t[0]) {
        1 + ident_run(t.drop_first())
    } else {
        0
    }
}

/// What `parse_ident` does on `t`: the longest run of identifier
/// characters, starting with a letter, `_` or `$`, unless that run spells a
/// register.
pub open spec fn identifier_outcome(t: Seq<char>) -> Outcome<Seq<char>> {
    let k = ident_run(t);
    let word = t.take(k as int);
    if k > 0 && is_ident_start(t[0]) && general_register_index(word) is None
        && float_register_index(word) is None {
        Outcome::Done { len: k, value: word }
    } else {
        Outcome::Fail { hard: false, kind: ErrorKind::Default(GrammarKind::Ident), at: 0 }
    }
}

/// The outcome is a recoverable failure, so that the next alternative is tried.
pub open spec fn is_soft_fail<T>(o: Outcome<T>) -> bool {
    match o {
        Outcome::Fail { hard, .. } => !hard,
        _ => false,
    }
}

/// What `numeral` does on `t`: the first of a binary, hexadecimal, character
/// and decimal literal that does not fail recoverably.
pub open spec fn numeral_outcome(t: Seq<char>) -> Outcome<u32> {
    if !is_soft_fail(binary_outcome(t)) {
        binary_outcome(t)
    } else if !is_soft_fail(hexadecimal_outcome(t)) {
        hexadecimal_outcome(t)
    } else if !is_soft_fail(char_outcome(t)) {
        match char_outcome(t) {
            Outcome::Done { len, value } => Outcome::Done { len, value: value as u32 },
            Outcome::Fail { hard, kind, at } => Outcome::Fail { hard, kind, at },
        }
    } else {
        decimal_outcome(t)
    }
}

/// A value read after `w` characters and followed by optional spaces.
pub open spec fn padded<T>(t: Seq<char>, w: nat, o: Outcome<T>) -> Outcome<T> {
    match o {
        Outcome::Done { len, value } => Outcome::Done {
            len: w + len + spaces(t.skip((w + len) as int)),
            value,
        },
        Outcome::Fail { hard, kind, at } => Outcome::Fail { hard, kind, at: w + at },
    }
}

/// The unary operator written `c`.
pub open spec fn monop_of(c: char) -> Option<MonOp> {
    if c == '+' {
        Some(MonOp::PosOp)
    } else if c == '-' {
        Some(MonOp::NegOp)
    } else if c == '~' {
        Some(MonOp::BitNotOp)
    } else {
        None
    }
}

/// The binary operator of tier `tier` written `c`.
pub open spec fn binop_of(c: char, tier: nat) -> Option<BinOp> {
    if tier == 0 && c == '*' {
        Some(BinOp::TimesOp)
    } else if tier == 0 && c == '/' {
        Some(BinOp::DivideOp)
    } else if tier == 1 && c == '+' {
        Some(BinOp::PlusOp)
    } else if tier == 1 && c == '-' {
        Some(BinOp::MinusOp)
    } else if tier == 2 && c == '&' {
        Some(BinOp::BitAndOp)
    } else if tier == 3 && c == '|' {
        Some(BinOp::BitOrOp)
    } else {
        None
    }
}

/// What `atomic_expr` does on `t`.
pub open spec fn atomic_outcome(t: Seq<char>) -> Outcome<Tree>
    decreases t.len(), 0nat, 0nat,
{
    let w = spaces(t);
    if w < t.len() && t[w as int] == '(' {
        match level_outcome(t.skip(w + 1 as int), 3) {
            Outcome::Done { len, value } => {
                let close = w + 1 + len;
                if close < t.len() && t[close as int] == ')' {
                    Outcome::Done { len: close + 1 + spaces(t.skip(close + 1 as int)), value }
                } else {
                    Outcome::Fail { hard: false, kind: ErrorKind::Default(GrammarKind::Char), at: close }
                }
            },
            Outcome::Fail { hard, kind, at } => Outcome::Fail { hard, kind, at: w + 1 + at },
        }
    } else {
        let u = t.skip(w as int);
        if !is_soft_fail(numeral_outcome(u)) {
            padded(
                t,
                w,
                match numeral_outcome(u) {
                    Outcome::Done { len, value } => Outcome::Done { len, value: Tree::Num(value) },
                    Outcome::Fail { hard, kind, at } => Outcome::Fail { hard, kind, at },
                },
            )
        } else {
            match identifier_outcome(u) {
                Outcome::Done { len, value } => padded(t, w, Outcome::Done { len, value: Tree::Var(value) }),
                _ => Outcome::Fail { hard: false, kind: ErrorKind::Default(GrammarKind::Alt), at: w },
            }
        }
    }
}

/// What `unary_expr` does on `t`. A unary plus leaves its operand as it is.
pub open spec fn unary_outcome(t: Seq<char>) -> Outcome<Tree>
    decreases t.len(), 1nat, 0nat,
{
    let w = spaces(t);
    if w < t.len() && monop_of(t[w as int]) is Some {
        let op = monop_of(t[w as int])->Some_0;
        match atomic_outcome(t.skip(w + 1 as int)) {
            Outcome::Done { len, value } => Outcome::Done {
                len: w + 1 + len,
                value: if op == MonOp::PosOp {
                    value
                } else {
                    Tree::Unary(op, Box::new(value))
                },
            },
            Outcome::Fail { hard, kind, at } => Outcome::Fail { hard, kind, at: w + 1 + at },
        }
    } else {
        atomic_outcome(t)
    }
}

/// What reading one operand of tier `tier` does on `t`.
pub open spec fn operand_outcome(t: Seq<char>, tier: nat) -> Outcome<Tree>
    decreases t.len(), 2 * tier + 2, 0nat,
{
    if tier == 0 {
        unary_outcome(t)
    } else {
        level_outcome(t, (tier - 1) as nat)
    }
}

/// What the binary level `tier` does on `t`: one operand, then as many
/// `(operator, operand)` pairs of that tier as follow.
pub open spec fn level_outcome(t: Seq<char>, tier: nat) -> Outcome<Tree>
    decreases t.len(), 2 * tier + 3, 0nat,
{
    match operand_outcome(t, tier) {
        Outcome::Done { len, value } => if len <= t.len() {
            fold_outcome(t, tier, len, value)
        } else {
            Outcome::Done { len, value }
        },
        Outcome::Fail { hard, kind, at } => Outcome::Fail { hard, kind, at },
    }
}

/// The pairs of tier `tier` that follow position `pos` of `t`, folded into
/// `acc` from left to right. A pair whose operand fails recoverably is left
/// unread; a hard failure ends the whole expression.
pub open spec fn fold_outcome(t: Seq<char>, tier: nat, pos: nat, acc: Tree) -> Outcome<Tree>
    decreases t.len(), 2 * tier + 2, t.len() - pos,
{
    if pos < t.len() && binop_of(t[pos as int], tier) is Some {
        let op = binop_of(t[pos as int], tier)->Some_0;
        match operand_outcome(t.skip(pos + 1 as int), tier) {
            Outcome::Done { len, value } => if pos + 1 + len <= t.len() {
                fold_outcome(t, tier, pos + 1 + len, combine_tree(acc, op, value))
            } else {
                Outcome::Done { len: pos, value: acc }
            },
            Outcome::Fail { hard, kind, at } => if hard {
                Outcome::Fail { hard, kind, at: pos + 1 + at }
            } else {
                Outcome::Done { len: pos, value: acc }
            },
        }
    } else {
        Outcome::Done { len: pos, value: acc }
    }
}

/// What `expr` does on `t`.
pub open spec fn expr_outcome(t: Seq<char>) -> Outcome<Tree> {
    level_outcome(t, 3)
}

// ---------------------------------------------------------------------
// The parsers
// ---------------------------------------------------------------------

/// Skips spaces and tabs; returns the span after them and how many there were.
pub fn space0<'a>(input: Span<'a>) -> (r: (Span<'a>, usize))
    ensures
        r.1 == spaces(input@.fragment),
        r.1 <= input@.fragment.len(),
        r.0@ == span_after(input@, r.1 as nat),
{
    let ghost f = input@.fragment;
    let len = input.len();
    let mut i: usize = 0;
    proof {
        assert(f.skip(0) =~= f);
    }
    while i < len
        invariant
            f == input@.fragment,
            len == f.len(),
            i <= len,
            spaces(f) == i + spaces(f.skip(i as int)),
            all_ascii(f.take(i as int)),
        ensures
            spaces(f.skip(i as int)) == 0,
        decreases len - i,
    {
        let c = input.char_at(i);
        proof {
            assert(f.skip(i as int)[0] == c);
            assert(f.skip(i as int).drop_first() =~= f.skip(i + 1));
        }
        if !(c == ' ' || c == '\t') {
            break;
        }
        proof {
            assert forall|k: int| 0 <= k < i + 1 implies is_ascii_char(#[trigger] f.take(i + 1)[k]) by {
                if k < i {
                    assert(f.take(i + 1)[k] == f.take(i as int)[k]);
                }
            }
        }
        i = i + 1;
    }
    (input.advance(i), i)
}

/// An identifier: a letter, `_` or `$`, then letters, digits, `_` and `$`.
/// A word that spells a register is not an identifier.
pub fn parse_ident<'a>(input: Span<'a>) -> (r: IResult<'a, String>)
    ensures
        is_outcome(input@, r, identifier_outcome(input@.fragment)),
{
    let ghost f = input@.fragment;
    let len = input.len();
    let mut i: usize = 0;
    proof {
        assert(f.skip(0) =~= f);
    }
    while i < len
        invariant
            f == input@.fragment,
            len == f.len(),
            i <= len,
            ident_run(f) == i + ident_run(f.skip(i as int)),
            all_ascii(f.take(i as int)),
        ensures
            ident_run(f.skip(i as int)) == 0,
        decreases len - i,
    {
        let c = input.char_at(i);
        proof {
            assert(f.skip(i as int)[0] == c);
            assert(f.skip(i as int).drop_first() =~= f.skip(i + 1));
        }
        let ok = ('a' <= c && c <= 'z') || ('A' <= c && c <= 'Z') || c == '_' || c == '$' || ('0' <= c && c <= '9');
        if !ok {
            break;
        }
        proof {
            assert forall|k: int| 0 <= k < i + 1 implies is_ascii_char(#[trigger] f.take(i + 1)[k]) by {
                if k < i {
                    assert(f.take(i + 1)[k] == f.take(i as int)[k]);
                }
            }
        }
        i = i + 1;
    }
    proof {
        assert(f.skip(0) =~= f);
        lemma_span_after_zero(input@);
    }
    if i == 0 {
        return Err(ParseErr::Error(MIPSLangError::from_error_kind(input, ErrorKind::Default(GrammarKind::Ident))));
    }
    let c0 = input.char_at(0);
    if !(('a' <= c0 && c0 <= 'z') || ('A' <= c0 && c0 <= 'Z') || c0 == '_' || c0 == '$') {
        return Err(ParseErr::Error(MIPSLangError::from_error_kind(input, ErrorKind::Default(GrammarKind::Ident))));
    }
    let word = input.prefix(i);
    if general_index_of(word).is_some() || float_index_of(word).is_some() {
        return Err(ParseErr::Error(MIPSLangError::from_error_kind(input, ErrorKind::Default(GrammarKind::Ident))));
    }
    Ok((input.advance(i), word.to_owned()))
}

/// An unsigned numeral: a binary, hexadecimal, character or decimal
/// literal, tried in that order.
pub fn parse_unsigned<'a>(input: Span<'a>) -> (r: IResult<'a, u32>)
    ensures
        is_outcome(input@, r, numeral_outcome(input@.fragment)),
{
    match binary(input) {
        Err(ParseErr::Error(_)) => {},
        other => return other,
    }
    match hexadecimal(input) {
        Err(ParseErr::Error(_)) => {},
        other => return other,
    }
    match parse_char(input) {
        Err(ParseErr::Error(_)) => {},
        Ok((rest, b)) => return Ok((rest, b as u32)),
        Err(e) => return Err(e),
    }
    decimal(input)
}

/// Reading `a` characters and then `b` more, in spans and in text.
proof fn lemma_step(v: crate::span::SpanView, a: nat, b: nat)
    requires
        a + b <= v.fragment.len(),
    ensures
        span_after(span_after(v, a), b) == span_after(v, a + b),
        v.fragment.skip(a as int).skip(b as int) == v.fragment.skip((a + b) as int),
{
    lemma_span_after_add(v, a, b);
    assert(v.fragment.skip(a as int).skip(b as int) =~= v.fragment.skip((a + b) as int));
}

/// An atomic operand: a numeral, an identifier, or a parenthesized
/// expression, with optional spaces around it.
pub fn atomic_expr<'a>(input: Span<'a>) -> (r: IResult<'a, Operand>)
    ensures
        is_outcome(input@, r, atomic_outcome(input@.fragment)),
    decreases input@.fragment.len(), 0nat, 0nat,
{
    let ghost t = input@.fragment;
    let (sp, w) = space0(input);
    proof {
        assert(sp@.fragment == t.skip(w as int));
    }
    if sp.starts_with_char('(') {
        let next = sp.advance(1);
        proof {
            lemma_step(input@, w as nat, 1);
            assert(all_ascii(sp@.fragment.take(1)));
        }
        match level_expr(next, 3) {
            Ok((rest, value)) => {
                let ghost len: nat = ((t.len() - w - 1) - rest@.fragment.len()) as nat;
                proof {
                    match level_outcome(t.skip(w + 1 as int), 3) {
                        Outcome::Done { len: n, value: _ } => {
                            assert(n == len);
                        },
                        _ => {},
                    }
                    lemma_step(input@, (w + 1) as nat, len);
                    assert(rest@.fragment == t.skip(w + 1 + len));
                }
                if rest.starts_with_char(')') {
                    let close = rest.advance(1);
                    proof {
                        assert(t.skip(w + 1 + len)[0] == t[w + 1 + len]);
                        lemma_step(input@, (w + 1 + len) as nat, 1);
                        assert(all_ascii(rest@.fragment.take(1)));
                    }
                    let (fin, w2) = space0(close);
                    proof {
                        lemma_step(input@, (w + 2 + len) as nat, w2 as nat);
                    }
                    Ok((fin, value))
                } else {
                    proof {
                        assert(rest@.fragment.len() > 0 ==> t.skip(w + 1 + len)[0] == t[w + 1 + len]);
                    }
                    Err(ParseErr::Error(MIPSLangError::from_error_kind(rest, ErrorKind::Default(GrammarKind::Char))))
                }
            },
            Err(e) => {
                proof {
                    match level_outcome(t.skip(w + 1 as int), 3) {
                        Outcome::Fail { hard: _, kind: _, at } => {
                            lemma_step(input@, (w + 1) as nat, at);
                        },
                        _ => {},
                    }
                }
                Err(e)
            },
        }
    } else {
        proof {
            assert(sp@.fragment.len() > 0 ==> sp@.fragment[0] == t[w as int]);
        }
        match parse_unsigned(sp) {
            Ok((rest, v)) => {
                let ghost len: nat = ((t.len() - w) - rest@.fragment.len()) as nat;
                proof {
                    match numeral_outcome(t.skip(w as int)) {
                        Outcome::Done { len: n, value: _ } => {
                            assert(n == len);
                        },
                        _ => {},
                    }
                    lemma_step(input@, w as nat, len);
                }
                let (fin, w2) = space0(rest);
                proof {
                    lemma_step(input@, (w + len) as nat, w2 as nat);
                }
                Ok((fin, Operand::Num(v)))
            },
            Err(ParseErr::Failure(e)) => {
                proof {
                    match numeral_outcome(t.skip(w as int)) {
                        Outcome::Fail { hard: _, kind: _, at } => {
                            lemma_step(input@, w as nat, at);
                        },
                        _ => {},
                    }
                }
                Err(ParseErr::Failure(e))
            },
            Err(ParseErr::Error(_)) => {
                match parse_ident(sp) {
                    Ok((rest, name)) => {
                        let ghost len: nat = ((t.len() - w) - rest@.fragment.len()) as nat;
                        proof {
                            match identifier_outcome(t.skip(w as int)) {
                                Outcome::Done { len: n, value: _ } => {
                                    assert(n == len);
                                },
                                _ => {},
                            }
                            lemma_step(input@, w as nat, len);
                        }
                        let (fin, w2) = space0(rest);
                        proof {
                            lemma_step(input@, (w + len) as nat, w2 as nat);
                        }
                        Ok((fin, Operand::Var(name)))
                    },
                    Err(_) => Err(ParseErr::Error(MIPSLangError::from_error_kind(sp, ErrorKind::Default(GrammarKind::Alt)))),
                }
            },
        }
    }
}

/// A unary operator (`+`, `-` or `~`) applied to an atomic operand, or an
/// atomic operand alone.
pub fn unary_expr<'a>(input: Span<'a>) -> (r: IResult<'a, Operand>)
    ensures
        is_outcome(input@, r, unary_outcome(input@.fragment)),
    decreases input@.fragment.len(), 1nat, 0nat,
{
    let ghost t = input@.fragment;
    let (sp, w) = space0(input);
    proof {
        assert(sp@.fragment == t.skip(w as int));
        assert(sp@.fragment.len() > 0 ==> sp@.fragment[0] == t[w as int]);
    }
    let op = if sp.is_empty() {
        None
    } else {
        let c = sp.char_at(0);
        if c == '+' {
            Some(MonOp::PosOp)
        } else if c == '-' {
            Some(MonOp::NegOp)
        } else if c == '~' {
            Some(MonOp::BitNotOp)
        } else {
            None
        }
    };
    match op {
        None => atomic_expr(input),
        Some(op) => {
            let next = sp.advance(1);
            proof {
                lemma_step(input@, w as nat, 1);
                assert(all_ascii(sp@.fragment.take(1)));
            }
            match atomic_expr(next) {
                Ok((rest, v)) => {
                    let ghost len: nat = ((t.len() - w - 1) - rest@.fragment.len()) as nat;
                    proof {
                        match atomic_outcome(t.skip(w + 1 as int)) {
                            Outcome::Done { len: n, value: _ } => {
                                assert(n == len);
                            },
                            _ => {},
                        }
                        lemma_step(input@, (w + 1) as nat, len);
                    }
                    let value = match op {
                        MonOp::PosOp => v.positive(),
                        MonOp::NegOp => v.negative(),
                        MonOp::BitNotOp => v.complement(),
                    };
                    Ok((rest, value))
                },
                Err(e) => {
                    proof {
                        match atomic_outcome(t.skip(w + 1 as int)) {
                            Outcome::Fail { hard: _, kind: _, at } => {
                                lemma_step(input@, (w + 1) as nat, at);
                            },
                            _ => {},
                        }
                    }
                    Err(e)
                },
            }
        },
    }
}

fn operand_expr<'a>(input: Span<'a>, tier: u8) -> (r: IResult<'a, Operand>)
    requires
        tier <= 3,
    ensures
        is_outcome(input@, r, operand_outcome(input@.fragment, tier as nat)),
    decreases input@.fragment.len(), 2 * tier + 2, 0nat,
{
    if tier == 0 {
        unary_expr(input)
    } else {
        level_expr(input, tier - 1)
    }
}

/// The binary operator of tier `tier` written `c`.
fn binop_char(c: char, tier: u8) -> (r: Option<BinOp>)
    ensures
        r == binop_of(c, tier as nat),
{
    if tier == 0 && c == '*' {
        Some(BinOp::TimesOp)
    } else if tier == 0 && c == '/' {
        Some(BinOp::DivideOp)
    } else if tier == 1 && c == '+' {
        Some(BinOp::PlusOp)
    } else if tier == 1 && c == '-' {
        Some(BinOp::MinusOp)
    } else if tier == 2 && c == '&' {
        Some(BinOp::BitAndOp)
    } else if tier == 3 && c == '|' {
        Some(BinOp::BitOrOp)
    } else {
        None
    }
}

fn level_expr<'a>(input: Span<'a>, tier: u8) -> (r: IResult<'a, Operand>)
    requires
        tier <= 3,
    ensures
        is_outcome(input@, r, level_outcome(input@.fragment, tier as nat)),
    decreases input@.fragment.len(), 2 * tier + 3, 0nat,
{
    let ghost t = input@.fragment;
    let (mut cur, mut acc) = match operand_expr(input, tier) {
        Ok(x) => x,
        Err(e) => return Err(e),
    };
    let ghost mut pos: nat = (t.len() - cur@.fragment.len()) as nat;
    proof {
        match operand_outcome(t, tier as nat) {
            Outcome::Done { len: n, value: _ } => {
                assert(n == pos);
            },
            _ => {},
        }
    }
    loop
        invariant
            tier <= 3,
            t == input@.fragment,
            pos <= t.len(),
            cur@ == span_after(input@, pos),
            level_outcome(t, tier as nat) == fold_outcome(t, tier as nat, pos, acc@),
        ensures
            fold_outcome(t, tier as nat, pos, acc@) == (Outcome::Done { len: pos, value: acc@ }),
        decreases cur@.fragment.len(),
    {
        if cur.is_empty() {
            break;
        }
        let c = cur.char_at(0);
        proof {
            assert(cur@.fragment[0] == t[pos as int]);
        }
        let op = match binop_char(c, tier) {
            Some(op) => op,
            None => break,
        };
        let next = cur.advance(1);
        proof {
            lemma_step(input@, pos, 1);
            assert(all_ascii(cur@.fragment.take(1)));
        }
        match operand_expr(next, tier) {
            Ok((rest, v)) => {
                let ghost len: nat = ((t.len() - pos - 1) - rest@.fragment.len()) as nat;
                proof {
                    match operand_outcome(t.skip(pos + 1 as int), tier as nat) {
                        Outcome::Done { len: n, value: _ } => {
                            assert(n == len);
                        },
                        _ => {},
                    }
                    lemma_step(input@, pos + 1, len);
                }
                acc = Operand::combine(acc, op, v);
                cur = rest;
                proof {
                    pos = (pos + 1 + len) as nat;
                }
            },
            Err(ParseErr::Failure(e)) => {
                proof {
                    match operand_outcome(t.skip(pos + 1 as int), tier as nat) {
                        Outcome::Fail { hard: _, kind: _, at } => {
                            lemma_step(input@, pos + 1, at);
                        },
                        _ => {},
                    }
                }
                return Err(ParseErr::Failure(e));
            },
            Err(ParseErr::Error(_)) => {
                break;
            },
        }
    }
    Ok((cur, acc))
}

/// `mul_expr`: unary operands joined by `*` and `/`.
pub fn mul_expr<'a>(input: Span<'a>) -> (r: IResult<'a, Operand>)
    ensures
        is_outcome(input@, r, level_outcome(input@.fragment, 0)),
{
    level_expr(input, 0)
}

/// `add_expr`: multiplicative operands joined by `+` and `-`.
pub fn add_expr<'a>(input: Span<'a>) -> (r: IResult<'a, Operand>)
    ensures
        is_outcome(input@, r, level_outcome(input@.fragment, 1)),
{
    level_expr(input, 1)
}

/// `bit_and_expr`: additive operands joined by `&`.
pub fn bit_and_expr<'a>(input: Span<'a>) -> (r: IResult<'a, Operand>)
    ensures
        is_outcome(input@, r, level_outcome(input@.fragment, 2)),
{
    level_expr(input, 2)
}

/// `bit_or_expr`: bitwise-and operands joined by `|`.
pub fn bit_or_expr<'a>(input: Span<'a>) -> (r: IResult<'a, Operand>)
    ensures
        is_outcome(input@, r, level_outcome(input@.fragment, 3)),
{
    level_expr(input, 3)
}

/// An operand expression at the start of the input; what follows it is left
/// for the caller.
pub fn expr<'a>(input: Span<'a>) -> (r: IResult<'a, Operand>)
    ensures
        is_outcome(input@, r, expr_outcome(input@.fragment)),
{
    level_expr(input, 3)
}

/// The span over the whole of a source text.
pub open spec fn whole(s: Seq<char>) -> crate::span::SpanView {
    crate::span::SpanView { fragment: s, offset: 0, line: 1, column: 1 }
}

/// What `parse` does on the source `s`: the expression tree when an
/// expression takes up all of `s`; otherwise the failure kind and how many
/// characters in it happened (text left over after an expression is an
/// `Eof` failure where that text starts).
pub open spec fn parse_outcome(s: Seq<char>) -> Result<Tree, (ErrorKind, nat)> {
    match expr_outcome(s) {
        Outcome::Done { len, value } => if len == s.len() {
            Ok(value)
        } else {
            Err((ErrorKind::Default(GrammarKind::Eof), len))
        },
        Outcome::Fail { hard: _, kind, at } => Err((kind, at)),
    }
}

/// Parses the whole of `source` as one operand expression.
pub fn parse(source: &str) -> (r: Result<Operand, MIPSLangError<'_>>)
    requires
        source@.len() < usize::MAX,
    ensures
        match parse_outcome(source@) {
            Ok(tree) => r is Ok && r->Ok_0@ == tree,
            Err((kind, at)) => {
                &&& r is Err
                &&& r->Err_0.kind == kind
                &&& r->Err_0.input@ == span_after(whole(source@), at)
            },
        },
{
    let input = Span::new(source);
    match expr(input) {
        Ok((rest, value)) => {
            if rest.is_empty() {
                Ok(value)
            } else {
                Err(MIPSLangError::from_error_kind(rest, ErrorKind::Default(GrammarKind::Eof)))
            }
        },
        Err(ParseErr::Error(e)) => Err(e),
        Err(ParseErr::Failure(e)) => Err(e),
    }
}

/// What `parse_int` does on `t`: an optional sign, then an unsigned
/// numeral; a minus negates the value with 32-bit wrapping, and the result
/// is read as a signed integer.
pub open spec fn int_outcome(t: Seq<char>) -> Outcome<i32> {
    let signed = t.len() > 0 && (t[0] == '-' || t[0] == '+');
    let k: nat = if signed { 1 } else { 0 };
    match numeral_outcome(t.skip(k as int)) {
        Outcome::Done { len, value } => Outcome::Done {
            len: k + len,
            value: crate::utils::signed_value(
                if t.len() > 0 && t[0] == '-' { crate::utils::wrap32(-value) } else { value },
            ) as i32,
        },
        Outcome::Fail { hard, kind, at } => Outcome::Fail { hard, kind, at: k + at },
    }
}

/// A signed integer literal: an optional `+` or `-`, then an unsigned numeral.
pub fn parse_int<'a>(input: Span<'a>) -> (r: IResult<'a, i32>)
    ensures
        is_outcome(input@, r, int_outcome(input@.fragment)),
{
    let ghost t = input@.fragment;
    let negative = input.starts_with_char('-');
    let signed = negative || input.starts_with_char('+');
    let k: usize = if signed { 1 } else { 0 };
    proof {
        assert(all_ascii(t.take(k as int)));
    }
    let body = input.advance(k);
    proof {
        lemma_span_after_zero(input@);
    }
    match parse_unsigned(body) {
        Ok((rest, v)) => {
            let ghost len: nat = ((t.len() - k) - rest@.fragment.len()) as nat;
            proof {
                match numeral_outcome(t.skip(k as int)) {
                    Outcome::Done { len: n, value: _ } => {
                        assert(n == len);
                    },
                    _ => {},
                }
                lemma_step(input@, k as nat, len);
            }
            let bits = if negative { crate::expression::apply_unary(MonOp::NegOp, v) } else { v };
            Ok((rest, crate::utils::ToSigned::to_i32(&bits)))
        },
        Err(e) => {
            proof {
                match numeral_outcome(t.skip(k as int)) {
                    Outcome::Fail { hard: _, kind: _, at } => {
                        lemma_step(input@, k as nat, at);
                    },
                    _ => {},
                }
            }
            Err(e)
        },
    }
}

/// A successful outcome carries a well-tiered tree.
pub open spec fn yields_well_tiered(o: Outcome<Tree>) -> bool {
    match o {
        Outcome::Done { len: _, value } => well_tiered(value),
        _ => true,
    }
}

proof fn lemma_atomic_tiered(t: Seq<char>)
    ensures
        yields_well_tiered(atomic_outcome(t)),
    decreases t.len(), 0nat, 0nat,
{
    let w = spaces(t);
    if w < t.len() && t[w as int] == '(' {
        lemma_level_tiered(t.skip(w + 1 as int), 3);
    }
}

proof fn lemma_unary_tiered(t: Seq<char>)
    ensures
        yields_well_tiered(unary_outcome(t)),
    decreases t.len(), 1nat, 0nat,
{
    let w = spaces(t);
    if w < t.len() && monop_of(t[w as int]) is Some {
        lemma_atomic_tiered(t.skip(w + 1 as int));
    } else {
        lemma_atomic_tiered(t);
    }
}

proof fn lemma_operand_tiered(t: Seq<char>, tier: nat)
    ensures
        yields_well_tiered(operand_outcome(t, tier)),
    decreases t.len(), 2 * tier + 2, 0nat,
{
    if tier == 0 {
        lemma_unary_tiered(t);
    } else {
        lemma_level_tiered(t, (tier - 1) as nat);
    }
}

proof fn lemma_level_tiered(t: Seq<char>, tier: nat)
    ensures
        yields_well_tiered(level_outcome(t, tier)),
    decreases t.len(), 2 * tier + 3, 0nat,
{
    lemma_operand_tiered(t, tier);
    match operand_outcome(t, tier) {
        Outcome::Done { len, value } => if len <= t.len() {
            lemma_fold_tiered(t, tier, len, value);
        },
        _ => {},
    }
}

proof fn lemma_fold_tiered(t: Seq<char>, tier: nat, pos: nat, acc: Tree)
    requires
        well_tiered(acc),
    ensures
        yields_well_tiered(fold_outcome(t, tier, pos, acc)),
    decreases t.len(), 2 * tier + 2, t.len() - pos,
{
    if pos < t.len() && binop_of(t[pos as int], tier) is Some {
        let op = binop_of(t[pos as int], tier)->Some_0;
        lemma_operand_tiered(t.skip(pos + 1 as int), tier);
        match operand_outcome(t.skip(pos + 1 as int), tier) {
            Outcome::Done { len, value } => if pos + 1 + len <= t.len() {
                lemma_combine_well_tiered(acc, op, value);
                lemma_fold_tiered(t, tier, pos + 1 + len, combine_tree(acc, op, value));
            },
            _ => {},
        }
    }
}

/// Every expression that parses is a tree in which each chain keeps its
/// steps within one precedence tier.
pub proof fn law_parsed_trees_are_well_tiered(s: Seq<char>)
    ensures
        parse_outcome(s) is Ok ==> well_tiered(parse_outcome(s)->Ok_0),
{
    lemma_level_tiered(s, 3);
}

} // verus!
