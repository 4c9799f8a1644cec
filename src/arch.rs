//! General-purpose and floating-point register names.
use vstd::prelude::*;
use crate::error::{ChangeErrorKind, ErrorKind, IResult, MIPSLangError, ParseErr, fails_with};
use crate::span::{all_ascii, is_ascii_char, lemma_span_after_zero, span_after, Span};
use crate::token::{Token, TokenValue};
use crate::literals::digit_char_of;

verus! {

/// Number of general-purpose registers, and of floating-point registers.
pub const NUM_REGISTERS: u32 = 32;

/// The conventional name of general register `i`, without its `$`.
pub open spec fn general_alias(i: int) -> Seq<char> {
    if i == 0 {
        seq!['z', 'e', 'r', 'o']
    } else if i == 1 {
        seq!['a', 't']
    } else if i == 2 {
        seq!['v', '0']
    } else if i == 3 {
        seq!['v', '1']
    } else if i == 4 {
        seq!['a', '0']
    } else if i == 5 {
        seq!['a', '1']
    } else if i == 6 {
        seq!['a', '2']
    } else if i == 7 {
        seq!['a', '3']
    } else if i == 8 {
        seq!['t', '0']
    } else if i == 9 {
        seq!['t', '1']
    } else if i == 10 {
        seq!['t', '2']
    } else if i == 11 {
        seq!['t', '3']
    } else if i == 12 {
        seq!['t', '4']
    } else if i == 13 {
        seq!['t', '5']
    } else if i == 14 {
        seq!['t', '6']
    } else if i == 15 {
        seq!['t', '7']
    } else if i == 16 {
        seq!['s', '0']
    } else if i == 17 {
        seq!['s', '1']
    } else if i == 18 {
        seq!['s', '2']
    } else if i == 19 {
        seq!['s', '3']
    } else if i == 20 {
        seq!['s', '4']
    } else if i == 21 {
        seq!['s', '5']
    } else if i == 22 {
        seq!['s', '6']
    } else if i == 23 {
        seq!['s', '7']
    } else if i == 24 {
        seq!['t', '8']
    } else if i == 25 {
        seq!['t', '9']
    } else if i == 26 {
        seq!['k', '0']
    } else if i == 27 {
        seq!['k', '1']
    } else if i == 28 {
        seq!['g', 'p']
    } else if i == 29 {
        seq!['s', 'p']
    } else if i == 30 {
        seq!['f', 'p']
    } else {
        seq!['r', 'a']
    }
}

/// The decimal numeral of `n` in `0..100`, without leading zeros.
pub open spec fn decimal_name(n: int) -> Seq<char> {
    if n < 10 {
        seq![digit_char_of(n as nat)]
    } else {
        seq![digit_char_of((n / 10) as nat), digit_char_of((n % 10) as nat)]
    }
}

/// The numeric spelling `$N` of general register `i`.
pub open spec fn general_numeric_spelling(i: int) -> Seq<char> {
    seq!['$'] + decimal_name(i)
}

/// The alias spelling (`$zero`, `$at`, ...) of general register `i`.
pub open spec fn general_alias_spelling(i: int) -> Seq<char> {
    seq!['$'] + general_alias(i)
}

/// The spelling `$fN` of floating-point register `i`.
pub open spec fn float_spelling(i: int) -> Seq<char> {
    seq!['$', 'f'] + decimal_name(i)
}

pub open spec fn is_decimal_digit(c: char) -> bool {
    '0' <= c <= '9'
}

pub open spec fn decimal_digit_value(c: char) -> int {
    c as int - '0' as int
}

/// The number written by `n` when it is a decimal numeral of one or two
/// digits without a leading zero.
pub open spec fn small_number(n: Seq<char>) -> Option<int> {
    if n.len() == 1 && is_decimal_digit(n[0]) {
        Some(decimal_digit_value(n[0]))
    } else if n.len() == 2 && is_decimal_digit(n[0]) && n[0] != '0' && is_decimal_digit(n[1]) {
        Some(10 * decimal_digit_value(n[0]) + decimal_digit_value(n[1]))
    } else {
        None
    }
}

/// The register that the alias `n` names: `zero` is 0, `at` 1, `v0..v1`
/// 2..3, `a0..a3` 4..7, `t0..t7` 8..15, `s0..s7` 16..23, `t8..t9` 24..25,
/// `k0..k1` 26..27, then `gp`, `sp`, `fp`, `ra` for 28..31.
pub open spec fn alias_index(n: Seq<char>) -> Option<int> {
    if n.len() == 4 && n[0] == 'z' && n[1] == 'e' && n[2] == 'r' && n[3] == 'o' {
        Some(0)
    } else if n.len() == 2 {
        let (a, b) = (n[0], n[1]);
        let d = decimal_digit_value(b);
        if a == 'a' && b == 't' {
            Some(1)
        } else if a == 'v' && '0' <= b <= '1' {
            Some(2 + d)
        } else if a == 'a' && '0' <= b <= '3' {
            Some(4 + d)
        } else if a == 't' && '0' <= b <= '7' {
            Some(8 + d)
        } else if a == 's' && '0' <= b <= '7' {
            Some(16 + d)
        } else if a == 't' && '8' <= b <= '9' {
            Some(16 + d)
        } else if a == 'k' && '0' <= b <= '1' {
            Some(26 + d)
        } else if a == 'g' && b == 'p' {
            Some(28)
        } else if a == 's' && b == 'p' {
            Some(29)
        } else if a == 'f' && b == 'p' {
            Some(30)
        } else if a == 'r' && b == 'a' {
            Some(31)
        } else {
            None
        }
    } else {
        None
    }
}

/// The general register that the whole text `s` spells: `$` followed by
/// its number below 32 (no leading zero) or by its alias.
pub open spec fn general_register_index(s: Seq<char>) -> Option<int> {
    if s.len() >= 2 && s[0] == '$' {
        let name = s.drop_first();
        match small_number(name) {
            Some(k) => if k < 32 {
                Some(k)
            } else {
                None
            },
            None => alias_index(name),
        }
    } else {
        None
    }
}

/// The floating-point register that the whole text `s` spells: `$f`
/// followed by its number below 32 (no leading zero).
pub open spec fn float_register_index(s: Seq<char>) -> Option<int> {
    if s.len() >= 3 && s[0] == '$' && s[1] == 'f' {
        match small_number(s.skip(2)) {
            Some(k) => if k < 32 {
                Some(k)
            } else {
                None
            },
            None => None,
        }
    } else {
        None
    }
}

/// Register spellings are ASCII.
proof fn lemma_register_spelling_ascii(s: Seq<char>)
    requires
        general_register_index(s) is Some || float_register_index(s) is Some,
    ensures
        all_ascii(s.take(s.len() as int)),
{
    assert(s.take(s.len() as int) =~= s);
    assert forall|i: int| 0 <= i < s.len() implies is_ascii_char(#[trigger] s[i]) by {
        if i >= 1 {
            assert(s[i] == s.drop_first()[i - 1]);
        }
        if i >= 2 {
            assert(s[i] == s.skip(2)[i - 2]);
        }
    }
}

/// A general-purpose register.
#[derive(Clone, Copy, Debug, PartialEq, Eq, Structural, Hash)]
pub struct Reg {
    pub reg_no: u32,
}

/// A floating-point register.
#[derive(Clone, Copy, Debug, PartialEq, Eq, Structural, Hash)]
pub struct FpReg {
    pub reg_no: u32,
}

fn decimal_digit(c: char) -> (r: Option<u32>)
    ensures
        r == (if is_decimal_digit(c) { Some(decimal_digit_value(c) as u32) } else { None::<u32> }),
{
    if '0' <= c && c <= '9' {
        Some(c as u32 - '0' as u32)
    } else {
        None
    }
}

/// Reads a number of one or two digits without a leading zero from the
/// characters of `s` in `from..len`.
fn read_small_number(s: &str, from: usize, len: usize) -> (r: Option<u32>)
    requires
        len == s@.len(),
        from <= len,
    ensures
        r == (match small_number(s@.skip(from as int)) {
            Some(k) => Some(k as u32),
            None => None::<u32>,
        }),
{
    let ghost n = s@.skip(from as int);
    if len - from == 1 {
        assert(n[0] == s@[from as int]);
        match decimal_digit(s.get_char(from)) {
            Some(d) => Some(d),
            None => None,
        }
    } else if len - from == 2 {
        assert(n[0] == s@[from as int]);
        assert(n[1] == s@[from + 1]);
        let c0 = s.get_char(from);
        match (decimal_digit(c0), decimal_digit(s.get_char(from + 1))) {
            (Some(d0), Some(d1)) => if c0 != '0' {
                Some(10 * d0 + d1)
            } else {
                None
            },
            _ => None,
        }
    } else {
        None
    }
}

fn read_alias(s: &str, len: usize) -> (r: Option<u32>)
    requires
        len == s@.len(),
        len >= 1,
    ensures
        r == (match alias_index(s@.drop_first()) {
            Some(k) => Some(k as u32),
            None => None::<u32>,
        }),
{
    let ghost n = s@.drop_first();
    if len == 5 {
        assert(n[0] == s@[1] && n[1] == s@[2] && n[2] == s@[3] && n[3] == s@[4]);
        if s.get_char(1) == 'z' && s.get_char(2) == 'e' && s.get_char(3) == 'r' && s.get_char(4) == 'o' {
            return Some(0);
        }
        return None;
    }
    if len != 3 {
        return None;
    }
    assert(n[0] == s@[1] && n[1] == s@[2]);
    let a = s.get_char(1);
    let b = s.get_char(2);
    let d: u32 = if '0' <= b && b <= '9' { b as u32 - '0' as u32 } else { 0 };
    if a == 'a' && b == 't' {
        Some(1)
    } else if a == 'v' && '0' <= b && b <= '1' {
        Some(2 + d)
    } else if a == 'a' && '0' <= b && b <= '3' {
        Some(4 + d)
    } else if a == 't' && '0' <= b && b <= '7' {
        Some(8 + d)
    } else if a == 's' && '0' <= b && b <= '7' {
        Some(16 + d)
    } else if a == 't' && '8' <= b && b <= '9' {
        Some(16 + d)
    } else if a == 'k' && '0' <= b && b <= '1' {
        Some(26 + d)
    } else if a == 'g' && b == 'p' {
        Some(28)
    } else if a == 's' && b == 'p' {
        Some(29)
    } else if a == 'f' && b == 'p' {
        Some(30)
    } else if a == 'r' && b == 'a' {
        Some(31)
    } else {
        None
    }
}

/// The general register spelled by the whole of `s`.
pub(crate) fn general_index_of(s: &str) -> (r: Option<u32>)
    ensures
        r == (match general_register_index(s@) {
            Some(k) => Some(k as u32),
            None => None::<u32>,
        }),
{
    let len = s.unicode_len();
    if len < 2 || s.get_char(0) != '$' {
        return None;
    }
    proof {
        assert(s@.skip(1) =~= s@.drop_first());
    }
    match read_small_number(s, 1, len) {
        Some(k) => if k < NUM_REGISTERS {
            Some(k)
        } else {
            None
        },
        None => read_alias(s, len),
    }
}

/// The floating-point register spelled by the whole of `s`.
pub(crate) fn float_index_of(s: &str) -> (r: Option<u32>)
    ensures
        r == (match float_register_index(s@) {
            Some(k) => Some(k as u32),
            None => None::<u32>,
        }),
{
    let len = s.unicode_len();
    if len < 3 || s.get_char(0) != '$' || s.get_char(1) != 'f' {
        return None;
    }
    match read_small_number(s, 2, len) {
        Some(k) => if k < NUM_REGISTERS {
            Some(k)
        } else {
            None
        },
        None => None,
    }
}

/// The one-character text of a decimal digit.
pub(crate) fn digit_text(d: u32) -> (r: &'static str)
    requires
        d < 10,
    ensures
        r@ == seq![digit_char_of(d as nat)],
{
    proof {
        reveal_strlit("0");
        reveal_strlit("1");
        reveal_strlit("2");
        reveal_strlit("3");
        reveal_strlit("4");
        reveal_strlit("5");
        reveal_strlit("6");
        reveal_strlit("7");
        reveal_strlit("8");
        reveal_strlit("9");
    }
    match d {
        0 => "0",
        1 => "1",
        2 => "2",
        3 => "3",
        4 => "4",
        5 => "5",
        6 => "6",
        7 => "7",
        8 => "8",
        9 => "9",
        _ => "9",
    }
}

/// The decimal numeral of a number below 100.
fn decimal_text(n: u32) -> (r: String)
    requires
        n < 100,
    ensures
        r@ == decimal_name(n as int),
{
    if n < 10 {
        String::from_str(digit_text(n))
    } else {
        let mut t = String::from_str(digit_text(n / 10));
        t.append(digit_text(n % 10));
        proof {
            assert(t@ =~= decimal_name(n as int));
        }
        t
    }
}

/// The whole fragment of `s` was recognized: the token is the value, placed
/// where the text ends, and nothing remains.
pub open spec fn consumed_whole<'a>(s: Span<'a>, r: IResult<'a, Token<'a>>, value: TokenValue) -> bool {
    let end = span_after(s@, s@.fragment.len());
    &&& r is Ok
    &&& r->Ok_0.0@ == end
    &&& r->Ok_0.1.position@ == end
    &&& r->Ok_0.1.value == value
}

impl Reg {
    /// The general register with index `idx`.
    pub fn new(idx: u32) -> (r: Reg)
        requires
            idx < NUM_REGISTERS,
        ensures
            r.reg_no == idx,
    {
        Reg { reg_no: idx }
    }

    /// The register spelled by the whole of `name`, either `$N` or its alias.
    pub fn from_name(name: &str) -> (r: Result<Reg, ErrorKind>)
        ensures
            r == (match general_register_index(name@) {
                Some(k) => Ok(Reg { reg_no: k as u32 }),
                None => Err(ErrorKind::InvalidRegister),
            }),
    {
        match general_index_of(name) {
            Some(k) => Ok(Reg { reg_no: k }),
            None => Err(ErrorKind::InvalidRegister),
        }
    }

    /// The canonical spelling `$N`.
    pub fn to_string(&self) -> (r: String)
        requires
            self.reg_no < NUM_REGISTERS,
        ensures
            r@ == general_numeric_spelling(self.reg_no as int),
    {
        proof {
            reveal_strlit("$");
        }
        let mut t = String::from_str("$");
        let digits = decimal_text(self.reg_no);
        t.append(digits.as_str());
        t
    }

    /// Reads a general register from the whole remaining text. Any failure is
    /// reported as `InvalidRegister` at the start of the text.
    pub fn parse<'a>(s: Span<'a>) -> (r: IResult<'a, Token<'a>>)
        ensures
            match general_register_index(s@.fragment) {
                Some(k) => consumed_whole(s, r, TokenValue::Register(Reg { reg_no: k as u32 })),
                None => r is Err && fails_with(r->Err_0, false, ErrorKind::InvalidRegister, s@),
            },
    {
        match general_index_of(s.fragment()) {
            Some(k) => {
                proof {
                    lemma_register_spelling_ascii(s@.fragment);
                }
                let rest = s.advance(s.len());
                Ok((rest, Token { position: rest, value: TokenValue::Register(Reg { reg_no: k }) }))
            },
            None => {
                proof {
                    lemma_span_after_zero(s@);
                }
                Err(ParseErr::Error(MIPSLangError::from_error_kind(s, ErrorKind::InvalidRegister)))
            },
        }
    }
}

impl FpReg {
    /// The floating-point register with index `idx`.
    pub fn new(idx: u32) -> (r: FpReg)
        requires
            idx < NUM_REGISTERS,
        ensures
            r.reg_no == idx,
    {
        FpReg { reg_no: idx }
    }

    /// The register spelled by the whole of `name`, `$fN`.
    pub fn from_name(name: &str) -> (r: Result<FpReg, ErrorKind>)
        ensures
            r == (match float_register_index(name@) {
                Some(k) => Ok(FpReg { reg_no: k as u32 }),
                None => Err(ErrorKind::InvalidRegister),
            }),
    {
        match float_index_of(name) {
            Some(k) => Ok(FpReg { reg_no: k }),
            None => Err(ErrorKind::InvalidRegister),
        }
    }

    /// The canonical spelling `$fN`.
    pub fn to_string(&self) -> (r: String)
        requires
            self.reg_no < NUM_REGISTERS,
        ensures
            r@ == float_spelling(self.reg_no as int),
    {
        proof {
            reveal_strlit("$f");
        }
        let mut t = String::from_str("$f");
        let digits = decimal_text(self.reg_no);
        t.append(digits.as_str());
        proof {
            assert(t@ =~= float_spelling(self.reg_no as int));
        }
        t
    }

    /// Reads a floating-point register from the whole remaining text. Any
    /// failure is reported as `InvalidRegister` at the start of the text.
    pub fn parse<'a>(s: Span<'a>) -> (r: IResult<'a, Token<'a>>)
        ensures
            match float_register_index(s@.fragment) {
                Some(k) => consumed_whole(s, r, TokenValue::FloatReg(FpReg { reg_no: k as u32 })),
                None => r is Err && fails_with(r->Err_0, false, ErrorKind::InvalidRegister, s@),
            },
    {
        match float_index_of(s.fragment()) {
            Some(k) => {
                proof {
                    lemma_register_spelling_ascii(s@.fragment);
                }
                let rest = s.advance(s.len());
                Ok((rest, Token { position: rest, value: TokenValue::FloatReg(FpReg { reg_no: k }) }))
            },
            None => {
                proof {
                    lemma_span_after_zero(s@);
                }
                Err(ParseErr::Error(MIPSLangError::from_error_kind(s, ErrorKind::InvalidRegister)))
            },
        }
    }
}

impl core::str::FromStr for Reg {
    type Err = ErrorKind;

    /// The register spelled by the whole of `s`, as `Reg::from_name` reads it.
    fn from_str(s: &str) -> (r: Result<Reg, ErrorKind>)
        ensures
            r == (match general_register_index(s@) {
                Some(k) => Ok(Reg { reg_no: k as u32 }),
                None => Err(ErrorKind::InvalidRegister),
            }),
    {
        Reg::from_name(s)
    }
}

impl core::str::FromStr for FpReg {
    type Err = ErrorKind;

    /// The register spelled by the whole of `s`, as `FpReg::from_name` reads it.
    fn from_str(s: &str) -> (r: Result<FpReg, ErrorKind>)
        ensures
            r == (match float_register_index(s@) {
                Some(k) => Ok(FpReg { reg_no: k as u32 }),
                None => Err(ErrorKind::InvalidRegister),
            }),
    {
        FpReg::from_name(s)
    }
}

/// Both spellings of each general register, `$N` and its alias, name that
/// register, and nothing past index 31 does.
pub proof fn law_general_register_spellings(i: int)
    requires
        0 <= i < 32,
    ensures
        general_register_index(general_numeric_spelling(i)) == Some(i),
        general_register_index(general_alias_spelling(i)) == Some(i),
        general_register_index(general_numeric_spelling(i + 32)) is None,
{
    let n = general_numeric_spelling(i);
    let a = general_alias_spelling(i);
    assert(n.drop_first() =~= decimal_name(i));
    assert(a.drop_first() =~= general_alias(i));
    let m = general_numeric_spelling(i + 32);
    assert(m.drop_first() =~= decimal_name(i + 32));
}

/// The spelling `$fN` of each floating-point register names that register,
/// and nothing past index 31 does.
pub proof fn law_float_register_spellings(i: int)
    requires
        0 <= i < 32,
    ensures
        float_register_index(float_spelling(i)) == Some(i),
        float_register_index(float_spelling(i + 32)) is None,
{
    assert(float_spelling(i).skip(2) =~= decimal_name(i));
    assert(float_spelling(i + 32).skip(2) =~= decimal_name(i + 32));
}

} // verus!
