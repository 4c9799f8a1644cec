//! Numeric, character, string and floating-point literals.
use vstd::prelude::*;
use crate::error::{ErrorKind, GrammarKind, IResult, MIPSLangError, Outcome, ParseErr, is_outcome};
use crate::span::{all_ascii, is_ascii_char, lemma_span_after_zero, Span};

verus! {

broadcast use vstd::seq::group_seq_axioms;

// ---------------------------------------------------------------------
// Numerals
// ---------------------------------------------------------------------

/// `c` is a digit in base `radix` (2, 10 or 16; hexadecimal digits in
/// either case).
pub open spec fn is_digit_in(c: char, radix: nat) -> bool {
    if radix == 2 {
        c == '0' || c == '1'
    } else if radix == 10 {
        '0' <= c <= '9'
    } else {
        ('0' <= c <= '9') || ('a' <= c <= 'f') || ('A' <= c <= 'F')
    }
}

/// The value of a digit character.
pub open spec fn digit_value(c: char) -> nat {
    if '0' <= c <= '9' {
        (c as int - '0' as int) as nat
    } else if 'a' <= c <= 'f' {
        (c as int - 'a' as int + 10) as nat
    } else {
        (c as int - 'A' as int + 10) as nat
    }
}

/// `c` may stand in a numeral of base `radix`: a digit, or an underscore
/// where separators are allowed.
pub open spec fn is_numeral_char(c: char, radix: nat, separators: bool) -> bool {
    is_digit_in(c, radix) || (separators && c == '_')
}

/// Length of the longest prefix of `s` whose characters may stand in a
/// numeral.
pub open spec fn numeral_run(s: Seq<char>, radix: nat, separators: bool) -> nat
    decreases s.len(),
{
    if s.len() > 0 && is_numeral_char(s[0], radix, separators) {
        1 + numeral_run(s.drop_first(), radix, separators)
    } else {
        0
    }
}

/// `s` with its underscores removed.
pub open spec fn without_separators(s: Seq<char>) -> Seq<char>
    decreases s.len(),
{
    if s.len() == 0 {
        s
    } else if s.last() == '_' {
        without_separators(s.drop_last())
    } else {
        without_separators(s.drop_last()).push(s.last())
    }
}

/// The value of a sequence of digits in base `radix`, most significant first.
pub open spec fn numeral_value(digits: Seq<char>, radix: nat) -> nat
    decreases digits.len(),
{
    if digits.len() == 0 {
        0
    } else {
        numeral_value(digits.drop_last(), radix) * radix + digit_value(digits.last())
    }
}

/// What a numeral with the two-character prefix `0<lower>` or `0<upper>`
/// does on the text `s`: the prefix, then digits of base `radix` mixed with
/// underscores, at least one digit; a value over 32 bits is a hard failure
/// of kind `overflow`.
pub open spec fn prefixed_outcome(
    s: Seq<char>,
    radix: nat,
    lower: char,
    upper: char,
    overflow: ErrorKind,
) -> Outcome<u32> {
    if !(s.len() >= 2 && s[0] == '0' && (s[1] == lower || s[1] == upper)) {
        Outcome::Fail { hard: false, kind: ErrorKind::Default(GrammarKind::Tag), at: 0 }
    } else {
        let run = numeral_run(s.skip(2), radix, true);
        let digits = without_separators(s.subrange(2, 2 + run as int));
        if digits.len() == 0 {
            Outcome::Fail { hard: false, kind: ErrorKind::Default(GrammarKind::Digit), at: 2 }
        } else if numeral_value(digits, radix) > u32::MAX {
            Outcome::Fail { hard: true, kind: overflow, at: 0 }
        } else {
            Outcome::Done { len: 2 + run, value: numeral_value(digits, radix) as u32 }
        }
    }
}

/// What `binary` does on the text `s`.
pub open spec fn binary_outcome(s: Seq<char>) -> Outcome<u32> {
    prefixed_outcome(s, 2, 'b', 'B', ErrorKind::InvalidBinaryString)
}

/// What `hexadecimal` does on the text `s`.
pub open spec fn hexadecimal_outcome(s: Seq<char>) -> Outcome<u32> {
    prefixed_outcome(s, 16, 'x', 'X', ErrorKind::InvalidHexString)
}

/// What `decimal` does on the text `s`: one or more decimal digits, with no
/// separators; a value over 32 bits is a hard failure.
pub open spec fn decimal_outcome(s: Seq<char>) -> Outcome<u32> {
    let run = numeral_run(s, 10, false);
    if run == 0 {
        Outcome::Fail { hard: false, kind: ErrorKind::Default(GrammarKind::Digit), at: 0 }
    } else if numeral_value(s.take(run as int), 10) > u32::MAX {
        Outcome::Fail { hard: true, kind: ErrorKind::Default(GrammarKind::MapRes), at: 0 }
    } else {
        Outcome::Done { len: run, value: numeral_value(s.take(run as int), 10) as u32 }
    }
}

/// Reads the longest run of numeral characters starting at `start`. Returns
/// where the run ends, whether it holds a digit, and its value, or a number
/// above `u32::MAX` when the value does not fit in 32 bits.
fn scan_numeral(input: &Span, start: usize, radix: u64, separators: bool) -> (r: (usize, bool, u64))
    requires
        start <= input@.fragment.len(),
        radix == 2 || radix == 10 || radix == 16,
    ensures
        ({
            let s = input@.fragment;
            let digits = without_separators(s.subrange(start as int, r.0 as int));
            &&& r.0 == start + numeral_run(s.skip(start as int), radix as nat, separators)
            &&& r.0 <= s.len()
            &&& r.1 == (digits.len() > 0)
            &&& numeral_value(digits, radix as nat) <= u32::MAX ==> r.2 == numeral_value(digits, radix as nat)
            &&& numeral_value(digits, radix as nat) > u32::MAX <==> r.2 > u32::MAX
            &&& !separators ==> digits == s.subrange(start as int, r.0 as int)
            &&& all_ascii(s.subrange(start as int, r.0 as int))
        }),
{
    let ghost s = input@.fragment;
    let len = input.len();
    let mut i: usize = start;
    let mut any = false;
    let mut acc: u64 = 0;
    while i < len
        invariant
            s == input@.fragment,
            len == s.len(),
            start <= i <= len,
            radix == 2 || radix == 10 || radix == 16,
            numeral_run(s.skip(start as int), radix as nat, separators)
                == (i - start) + numeral_run(s.skip(i as int), radix as nat, separators),
            any == (without_separators(s.subrange(start as int, i as int)).len() > 0),
            numeral_value(without_separators(s.subrange(start as int, i as int)), radix as nat) <= u32::MAX
                ==> acc == numeral_value(without_separators(s.subrange(start as int, i as int)), radix as nat),
            numeral_value(without_separators(s.subrange(start as int, i as int)), radix as nat) > u32::MAX
                <==> acc > u32::MAX,
            acc <= 0x10_0000_0000,
            !separators ==> without_separators(s.subrange(start as int, i as int)) == s.subrange(start as int, i as int),
            all_ascii(s.subrange(start as int, i as int)),
        ensures
            numeral_run(s.skip(i as int), radix as nat, separators) == 0,
        decreases len - i,
    {
        let c = input.char_at(i);
        let is_digit = if radix == 2 {
            c == '0' || c == '1'
        } else if radix == 10 {
            '0' <= c && c <= '9'
        } else {
            ('0' <= c && c <= '9') || ('a' <= c && c <= 'f') || ('A' <= c && c <= 'F')
        };
        proof {
            assert(s.skip(i as int)[0] == c);
            assert(s.skip(i as int).drop_first() =~= s.skip(i + 1));
        }
        if !(is_digit || (separators && c == '_')) {
            break;
        }
        let ghost before = s.subrange(start as int, i as int);
        proof {
            assert(s.subrange(start as int, i + 1).drop_last() =~= before);
            assert(s.subrange(start as int, i + 1).last() == c);
            assert(s.subrange(start as int, i + 1) =~= before.push(c));
        }
        if is_digit {
            let d: u64 = if '0' <= c && c <= '9' {
                (c as u32 - '0' as u32) as u64
            } else if 'a' <= c && c <= 'f' {
                (c as u32 - 'a' as u32 + 10) as u64
            } else {
                (c as u32 - 'A' as u32 + 10) as u64
            };
            proof {
                let ds = without_separators(before);
                assert(without_separators(before.push(c)) == ds.push(c));
                assert(ds.push(c).drop_last() =~= ds);
                assert(numeral_value(ds.push(c), radix as nat) == numeral_value(ds, radix as nat) * radix + d);
                if numeral_value(ds, radix as nat) > u32::MAX {
                    assert(numeral_value(ds, radix as nat) * radix >= numeral_value(ds, radix as nat))
                        by (nonlinear_arith)
                        requires radix >= 1;
                }
                if !separators {
                    assert(ds.push(c) == s.subrange(start as int, i + 1));
                }
            }
            if acc <= 0xFFFF_FFFF {
                proof {
                    assert(acc * radix <= 0xFFFF_FFFF * 16) by (nonlinear_arith)
                        requires acc <= 0xFFFF_FFFF, radix <= 16;
                }
                acc = acc * radix + d;
            }
            any = true;
        } else {
            proof {
                assert(without_separators(before.push(c)) == without_separators(before));
            }
        }
        i = i + 1;
    }
    (i, any, acc)
}

/// An unsigned binary numeral: `0b` or `0B`, then binary digits among which
/// underscores may stand anywhere; the underscores are dropped before the
/// digits are read. Reading stops at the first other character.
pub fn binary<'a>(input: Span<'a>) -> (r: IResult<'a, u32>)
    ensures
        is_outcome(input@, r, binary_outcome(input@.fragment)),
{
    prefixed(input, 2, 'b', 'B', ErrorKind::InvalidBinaryString)
}

/// An unsigned hexadecimal numeral: `0x` or `0X`, then hexadecimal digits
/// of either case among which underscores may stand anywhere.
pub fn hexadecimal<'a>(input: Span<'a>) -> (r: IResult<'a, u32>)
    ensures
        is_outcome(input@, r, hexadecimal_outcome(input@.fragment)),
{
    prefixed(input, 16, 'x', 'X', ErrorKind::InvalidHexString)
}

fn prefixed<'a>(input: Span<'a>, radix: u64, lower: char, upper: char, overflow: ErrorKind) -> (r: IResult<'a, u32>)
    requires
        radix == 2 || radix == 16,
        is_ascii_char(lower),
        is_ascii_char(upper),
    ensures
        is_outcome(input@, r, prefixed_outcome(input@.fragment, radix as nat, lower, upper, overflow)),
{
    let ghost s = input@.fragment;
    let len = input.len();
    if !(len >= 2 && input.char_at(0) == '0' && (input.char_at(1) == lower || input.char_at(1) == upper)) {
        proof {
            lemma_span_after_zero(input@);
        }
        return Err(ParseErr::Error(MIPSLangError::from_error_kind(input, ErrorKind::Default(GrammarKind::Tag))));
    }
    let (end, any, value) = scan_numeral(&input, 2, radix, true);
    proof {
        assert(all_ascii(s.take(2)));
    }
    if !any {
        return Err(ParseErr::Error(MIPSLangError::from_error_kind(input.advance(2), ErrorKind::Default(GrammarKind::Digit))));
    }
    if value > 0xFFFF_FFFF {
        proof {
            lemma_span_after_zero(input@);
        }
        return Err(ParseErr::Failure(MIPSLangError::from_error_kind(input, overflow)));
    }
    proof {
        assert forall|i: int| 0 <= i < end implies is_ascii_char(#[trigger] s.take(end as int)[i]) by {
            if i >= 2 {
                assert(s.take(end as int)[i] == s.subrange(2, end as int)[i - 2]);
            }
        }
    }
    Ok((input.advance(end), value as u32))
}

/// An unsigned decimal numeral: one or more decimal digits.
pub fn decimal<'a>(input: Span<'a>) -> (r: IResult<'a, u32>)
    ensures
        is_outcome(input@, r, decimal_outcome(input@.fragment)),
{
    let ghost s = input@.fragment;
    let (end, any, value) = scan_numeral(&input, 0, 10, false);
    proof {
        assert(s.skip(0) =~= s);
        lemma_span_after_zero(input@);
        assert(s.subrange(0, end as int) =~= s.take(end as int));
    }
    if !any {
        return Err(ParseErr::Error(MIPSLangError::from_error_kind(input, ErrorKind::Default(GrammarKind::Digit))));
    }
    if value > 0xFFFF_FFFF {
        return Err(ParseErr::Failure(MIPSLangError::from_error_kind(input, ErrorKind::Default(GrammarKind::MapRes))));
    }
    Ok((input.advance(end), value as u32))
}

// ---------------------------------------------------------------------
// Character and string literals
// ---------------------------------------------------------------------

/// The byte of an ASCII character.
pub open spec fn char_byte(c: char) -> u8 {
    c as u8
}

/// The escape that begins the text `e`, which follows a backslash: how many
/// characters of `e` it takes and the byte it denotes. `\xH` and `\xHH` take
/// one or two hexadecimal digits (as many as there are, up to two).
pub open spec fn escape(e: Seq<char>) -> Option<(nat, u8)> {
    if e.len() == 0 {
        None
    } else if e[0] == '\\' {
        Some((1, 0x5c))
    } else if e[0] == '"' {
        Some((1, 0x22))
    } else if e[0] == '\'' {
        Some((1, 0x27))
    } else if e[0] == 'n' {
        Some((1, 0x0a))
    } else if e[0] == 'r' {
        Some((1, 0x0d))
    } else if e[0] == 't' {
        Some((1, 0x09))
    } else if e[0] == '0' {
        Some((1, 0x00))
    } else if e[0] == 'x' && e.len() > 1 && is_digit_in(e[1], 16) {
        if e.len() > 2 && is_digit_in(e[2], 16) {
            Some((3, (16 * digit_value(e[1]) + digit_value(e[2])) as u8))
        } else {
            Some((2, digit_value(e[1]) as u8))
        }
    } else {
        None
    }
}

/// How reading the body of a literal ends: at its closing delimiter, after
/// `len` characters (the delimiter included), with the decoded `bytes` and
/// whether every character taken as it stands was ASCII; or at the end of
/// the line or the input; or at an escape that is not recognized.
pub enum LiteralScan {
    Closed { len: nat, bytes: Seq<u8>, raw_ascii: bool },
    Unterminated,
    BadEscape,
}

/// `rest` with `k` more characters, decoding to `bytes`, read in front of it.
pub open spec fn scan_after(k: nat, bytes: Seq<u8>, ascii: bool, rest: LiteralScan) -> LiteralScan {
    match rest {
        LiteralScan::Closed { len, bytes: more, raw_ascii } => LiteralScan::Closed {
            len: k + len,
            bytes: bytes + more,
            raw_ascii: ascii && raw_ascii,
        },
        other => other,
    }
}

/// Reading the body `b` of a literal whose closing delimiter is `delim`. A
/// newline or the end of the input before the delimiter leaves the literal
/// unterminated, as does a backslash at the very end.
pub open spec fn scan_body(b: Seq<char>, delim: char) -> LiteralScan
    decreases b.len(),
{
    if b.len() == 0 {
        LiteralScan::Unterminated
    } else if b[0] == delim {
        LiteralScan::Closed { len: 1, bytes: Seq::empty(), raw_ascii: true }
    } else if b[0] == '\n' {
        LiteralScan::Unterminated
    } else if b[0] == '\\' {
        if b.len() == 1 {
            LiteralScan::Unterminated
        } else {
            match escape(b.drop_first()) {
                Some((n, byte)) => if 1 + n <= b.len() {
                    scan_after(1 + n, seq![byte], true, scan_body(b.skip(1 + n as int), delim))
                } else {
                    LiteralScan::BadEscape
                },
                None => LiteralScan::BadEscape,
            }
        }
    } else {
        scan_after(1, seq![char_byte(b[0])], is_ascii_char(b[0]), scan_body(b.drop_first(), delim))
    }
}

proof fn lemma_scan_after_assoc(a: nat, x: Seq<u8>, p: bool, b: nat, y: Seq<u8>, q: bool, rest: LiteralScan)
    ensures
        scan_after(a, x, p, scan_after(b, y, q, rest)) == scan_after(a + b, x + y, p && q, rest),
{
    match rest {
        LiteralScan::Closed { len, bytes, raw_ascii } => {
            assert(x + (y + bytes) =~= (x + y) + bytes);
        },
        _ => {},
    }
}

/// The value of a digit character, for any base up to 16.
fn digit_of(c: char) -> (r: u8)
    requires
        is_digit_in(c, 16),
    ensures
        r == digit_value(c),
        r < 16,
{
    if '0' <= c && c <= '9' {
        (c as u32 - '0' as u32) as u8
    } else if 'a' <= c && c <= 'f' {
        (c as u32 - 'a' as u32 + 10) as u8
    } else {
        (c as u32 - 'A' as u32 + 10) as u8
    }
}

fn is_hex_digit(c: char) -> (r: bool)
    ensures
        r == is_digit_in(c, 16),
{
    ('0' <= c && c <= '9') || ('a' <= c && c <= 'f') || ('A' <= c && c <= 'F')
}

/// Decodes the escape whose first character is at position `j` of the
/// remaining text.
fn decode_escape(input: &Span, j: usize) -> (r: Option<(usize, u8)>)
    requires
        j <= input@.fragment.len(),
    ensures
        match escape(input@.fragment.skip(j as int)) {
            Some((n, b)) => r == Some((n as usize, b)),
            None => r is None,
        },
        r is Some ==> all_ascii(input@.fragment.subrange(j as int, j + r->Some_0.0)),
        r is Some ==> j + r->Some_0.0 <= input@.fragment.len(),
{
    let ghost e = input@.fragment.skip(j as int);
    let len = input.len();
    if j >= len {
        return None;
    }
    let c = input.char_at(j);
    assert(e[0] == c);
    let simple: Option<u8> = if c == '\\' {
        Some(0x5c)
    } else if c == '"' {
        Some(0x22)
    } else if c == '\'' {
        Some(0x27)
    } else if c == 'n' {
        Some(0x0a)
    } else if c == 'r' {
        Some(0x0d)
    } else if c == 't' {
        Some(0x09)
    } else if c == '0' {
        Some(0x00)
    } else {
        None
    };
    if let Some(b) = simple {
        proof {
            assert(input@.fragment.subrange(j as int, j + 1)[0] == c);
        }
        return Some((1, b));
    }
    if c == 'x' && j + 1 < len && is_hex_digit(input.char_at(j + 1)) {
        let h1 = digit_of(input.char_at(j + 1));
        assert(e[1] == input@.fragment[j + 1]);
        if j + 2 < len && is_hex_digit(input.char_at(j + 2)) {
            let h2 = digit_of(input.char_at(j + 2));
            assert(e[2] == input@.fragment[j + 2]);
            proof {
                let sub = input@.fragment.subrange(j as int, j + 3);
                assert(sub[0] == c && sub[1] == e[1] && sub[2] == e[2]);
            }
            return Some((3, 16 * h1 + h2));
        }
        proof {
            let sub = input@.fragment.subrange(j as int, j + 2);
            assert(sub[0] == c && sub[1] == e[1]);
        }
        return Some((2, h1));
    }
    None
}

/// Reads the body of a literal that opens at the start of the remaining
/// text and closes with `delim`.
fn read_literal(input: &Span, delim: char) -> (r: Result<(usize, Vec<u8>, bool), bool>)
    requires
        input@.fragment.len() > 0,
        is_ascii_char(input@.fragment[0]),
        is_ascii_char(delim),
    ensures
        match scan_body(input@.fragment.drop_first(), delim) {
            LiteralScan::Closed { len, bytes, raw_ascii } => {
                &&& r is Ok
                &&& r->Ok_0.0 == 1 + len
                &&& r->Ok_0.1@ == bytes
                &&& r->Ok_0.2 == raw_ascii
                &&& r->Ok_0.0 <= input@.fragment.len()
                &&& raw_ascii ==> all_ascii(input@.fragment.take(1 + len as int))
            },
            LiteralScan::Unterminated => r == Err::<(usize, Vec<u8>, bool), bool>(false),
            LiteralScan::BadEscape => r == Err::<(usize, Vec<u8>, bool), bool>(true),
        },
{
    let ghost s = input@.fragment;
    let len = input.len();
    let mut bytes: Vec<u8> = Vec::new();
    let mut ascii = true;
    let mut i: usize = 1;
    proof {
        assert(s.skip(1) =~= s.drop_first());
        assert(bytes@ + Seq::<u8>::empty() =~= bytes@);
    }
    loop
        invariant
            s == input@.fragment,
            len == s.len(),
            1 <= i <= len,
            is_ascii_char(s[0]),
            is_ascii_char(delim),
            scan_body(s.drop_first(), delim) == scan_after((i - 1) as nat, bytes@, ascii, scan_body(s.skip(i as int), delim)),
            ascii ==> all_ascii(s.take(i as int)),
        decreases len - i,
    {
        let ghost b = s.skip(i as int);
        if i >= len {
            return Err(false);
        }
        let c = input.char_at(i);
        assert(b[0] == c);
        if c == delim {
            proof {
                lemma_scan_after_assoc((i - 1) as nat, bytes@, ascii, 1, Seq::empty(), true, LiteralScan::Unterminated);
                assert(bytes@ + Seq::<u8>::empty() =~= bytes@);
                if ascii {
                    assert forall|k: int| 0 <= k < i + 1 implies is_ascii_char(#[trigger] s.take(i + 1)[k]) by {
                        if k < i {
                            assert(s.take(i + 1)[k] == s.take(i as int)[k]);
                        }
                    }
                }
            }
            return Ok((i + 1, bytes, ascii));
        }
        if c == '\n' {
            return Err(false);
        }
        if c == '\\' {
            if i + 1 >= len {
                return Err(false);
            }
            proof {
                assert(b.drop_first() =~= s.skip(i + 1));
            }
            match decode_escape(input, i + 1) {
                Some((n, byte)) => {
                    proof {
                        lemma_scan_after_assoc((i - 1) as nat, bytes@, ascii, (1 + n) as nat, seq![byte], true,
                            scan_body(s.skip(i + 1 + n), delim));
                        assert(b.skip(1 + n as int) =~= s.skip(i + 1 + n));
                        if ascii {
                            assert forall|k: int| 0 <= k < i + 1 + n implies is_ascii_char(#[trigger] s.take(i + 1 + n)[k]) by {
                                if k < i {
                                    assert(s.take(i + 1 + n)[k] == s.take(i as int)[k]);
                                } else if k > i {
                                    assert(s.take(i + 1 + n)[k] == s.subrange(i + 1, i + 1 + n)[k - i - 1]);
                                }
                            }
                        }
                    }
                    let ghost old_bytes = bytes@;
                    bytes.push(byte);
                    proof {
                        assert(bytes@ =~= old_bytes + seq![byte]);
                        assert(scan_body(b, delim) == scan_after((1 + n) as nat, seq![byte], true,
                            scan_body(s.skip(i + 1 + n), delim)));
                    }
                    i = i + 1 + n;
                },
                None => {
                    return Err(true);
                },
            }
        } else {
            let byte = #[verifier::truncate] (c as u8);
            proof {
                lemma_scan_after_assoc((i - 1) as nat, bytes@, ascii, 1, seq![byte], is_ascii_char(c),
                    scan_body(s.skip(i + 1), delim));
                assert(b.drop_first() =~= s.skip(i + 1));
                if ascii && is_ascii_char(c) {
                    assert forall|k: int| 0 <= k < i + 1 implies is_ascii_char(#[trigger] s.take(i + 1)[k]) by {
                        if k < i {
                            assert(s.take(i + 1)[k] == s.take(i as int)[k]);
                        }
                    }
                }
            }
            let ghost old_bytes = bytes@;
            bytes.push(byte);
            proof {
                assert(bytes@ =~= old_bytes + seq![byte]);
                assert(scan_body(b, delim) == scan_after(1, seq![byte], is_ascii_char(c),
                    scan_body(s.skip(i + 1), delim)));
            }
            ascii = ascii && ((c as u32) < 128);
            i = i + 1;
        }
    }
}

/// What `parse_char` does on the text `s`: a character literal in single
/// quotes whose body is ASCII and decodes to exactly one byte. An empty
/// body, a missing closing quote and a bad escape are hard failures; a body
/// that is not ASCII or not one byte long is a recoverable one. Failures are
/// reported at the opening quote.
pub open spec fn char_outcome(s: Seq<char>) -> Outcome<u8> {
    if s.len() == 0 || s[0] != '\'' {
        Outcome::Fail { hard: false, kind: ErrorKind::Default(GrammarKind::Char), at: 0 }
    } else if s.len() > 1 && s[1] == '\'' {
        Outcome::Fail { hard: true, kind: ErrorKind::Default(GrammarKind::EscapedTransform), at: 0 }
    } else {
        match scan_body(s.drop_first(), '\'') {
            LiteralScan::Closed { len, bytes, raw_ascii } => if raw_ascii && bytes.len() == 1 {
                Outcome::Done { len: 1 + len, value: bytes[0] }
            } else {
                Outcome::Fail { hard: false, kind: ErrorKind::Default(GrammarKind::Verify), at: 0 }
            },
            LiteralScan::Unterminated => Outcome::Fail {
                hard: true,
                kind: ErrorKind::Default(GrammarKind::Complete),
                at: 0,
            },
            LiteralScan::BadEscape => Outcome::Fail { hard: true, kind: ErrorKind::InvalidCharacterEscape, at: 0 },
        }
    }
}

/// Every byte is ASCII.
pub open spec fn ascii_bytes(b: Seq<u8>) -> bool {
    forall|i: int| 0 <= i < b.len() ==> #[trigger] b[i] < 128
}

/// What `parse_string` does on the text `s`: a string literal in double
/// quotes whose decoded bytes are ASCII; the value is those bytes followed by
/// a terminating NUL byte, so `""` gives one NUL byte. A missing closing quote
/// and a bad escape are hard failures; content that is not ASCII is a
/// recoverable one. Failures are reported at the opening quote.
pub open spec fn string_outcome(s: Seq<char>) -> Outcome<Seq<u8>> {
    if s.len() == 0 || s[0] != '"' {
        Outcome::Fail { hard: false, kind: ErrorKind::Default(GrammarKind::Char), at: 0 }
    } else {
        match scan_body(s.drop_first(), '"') {
            LiteralScan::Closed { len, bytes, raw_ascii } => if raw_ascii && ascii_bytes(bytes) {
                Outcome::Done { len: 1 + len, value: bytes.push(0) }
            } else {
                Outcome::Fail { hard: false, kind: ErrorKind::Default(GrammarKind::Verify), at: 0 }
            },
            LiteralScan::Unterminated => Outcome::Fail {
                hard: true,
                kind: ErrorKind::Default(GrammarKind::Complete),
                at: 0,
            },
            LiteralScan::BadEscape => Outcome::Fail { hard: true, kind: ErrorKind::InvalidCharacterEscape, at: 0 },
        }
    }
}

fn fail_here<'a, T>(input: Span<'a>, hard: bool, kind: ErrorKind) -> (r: IResult<'a, T>)
    ensures
        r is Err,
        crate::error::fails_with(r->Err_0, hard, kind, input@),
{
    let e = MIPSLangError::from_error_kind(input, kind);
    if hard {
        Err(ParseErr::Failure(e))
    } else {
        Err(ParseErr::Error(e))
    }
}

/// A character literal: one byte in single quotes, written as it stands or
/// as one of the escapes `\\`, `\"`, `\'`, `\n`, `\r`, `\t`, `\0`, `\xH`,
/// `\xHH`.
pub fn parse_char<'a>(input: Span<'a>) -> (r: IResult<'a, u8>)
    ensures
        is_outcome(input@, r, char_outcome(input@.fragment)),
{
    let ghost s = input@.fragment;
    proof {
        lemma_span_after_zero(input@);
    }
    if !input.starts_with_char('\'') {
        return fail_here(input, false, ErrorKind::Default(GrammarKind::Char));
    }
    if input.len() > 1 && input.char_at(1) == '\'' {
        return fail_here(input, true, ErrorKind::Default(GrammarKind::EscapedTransform));
    }
    match read_literal(&input, '\'') {
        Ok((n, bytes, ascii)) => {
            if ascii && bytes.len() == 1 {
                Ok((input.advance(n), bytes[0]))
            } else {
                fail_here(input, false, ErrorKind::Default(GrammarKind::Verify))
            }
        },
        Err(bad_escape) => {
            if bad_escape {
                fail_here(input, true, ErrorKind::InvalidCharacterEscape)
            } else {
                fail_here(input, true, ErrorKind::Default(GrammarKind::Complete))
            }
        },
    }
}

/// A string literal: bytes in double quotes, with the same escapes as a
/// character literal, read as a NUL-terminated byte string.
pub fn parse_string<'a>(input: Span<'a>) -> (r: IResult<'a, Vec<u8>>)
    ensures
        is_outcome(input@, r, string_outcome(input@.fragment)),
{
    let ghost s = input@.fragment;
    proof {
        lemma_span_after_zero(input@);
    }
    if !input.starts_with_char('"') {
        return fail_here(input, false, ErrorKind::Default(GrammarKind::Char));
    }
    match read_literal(&input, '"') {
        Ok((n, bytes, ascii)) => {
            let mut all = true;
            let mut i: usize = 0;
            while i < bytes.len()
                invariant
                    i <= bytes.len(),
                    all == (forall|k: int| 0 <= k < i ==> #[trigger] bytes@[k] < 128),
                decreases bytes.len() - i,
            {
                if bytes[i] >= 128 {
                    all = false;
                }
                i = i + 1;
            }
            if ascii && all {
                let mut out = bytes;
                out.push(0);
                Ok((input.advance(n), out))
            } else {
                fail_here(input, false, ErrorKind::Default(GrammarKind::Verify))
            }
        },
        Err(bad_escape) => {
            if bad_escape {
                fail_here(input, true, ErrorKind::InvalidCharacterEscape)
            } else {
                fail_here(input, true, ErrorKind::Default(GrammarKind::Complete))
            }
        },
    }
}

/// What `parse_quote_string` does on `s`: what `parse_string` does, with
/// the decoded bytes alone, without the terminating NUL byte.
pub open spec fn quote_string_outcome(s: Seq<char>) -> Outcome<Seq<u8>> {
    match string_outcome(s) {
        Outcome::Done { len, value } => Outcome::Done { len, value: value.drop_last() },
        Outcome::Fail { hard, kind, at } => Outcome::Fail { hard, kind, at },
    }
}

/// A string literal in double quotes, read as the bytes it denotes.
pub fn parse_quote_string<'a>(input: Span<'a>) -> (r: IResult<'a, Vec<u8>>)
    ensures
        is_outcome(input@, r, quote_string_outcome(input@.fragment)),
{
    match parse_string(input) {
        Ok((rest, bytes)) => {
            let mut bytes = bytes;
            let _ = bytes.pop();
            Ok((rest, bytes))
        },
        Err(e) => Err(e),
    }
}

/// Length of an optional `+` or `-` at the start of `t`.
pub open spec fn sign_len(t: Seq<char>) -> nat {
    if t.len() > 0 && (t[0] == '+' || t[0] == '-') {
        1
    } else {
        0
    }
}

/// Length of the floating-point literal at the start of `t`, or `None`: an
/// optional sign, then digits with an optional `.` and more digits, or `.`
/// and digits; then optionally `e` or `E`, an optional sign and digits (an
/// exponent mark without digits is no literal).
pub open spec fn float_len(t: Seq<char>) -> Option<nat> {
    let a = sign_len(t);
    let d1 = numeral_run(t.skip(a as int), 10, false);
    let p = a + d1;
    let has_point = p < t.len() && t[p as int] == '.';
    let d2 = if has_point { numeral_run(t.skip(p + 1 as int), 10, false) } else { 0 };
    let m = if has_point { p + 1 + d2 } else { p };
    if d1 + d2 == 0 {
        None
    } else if m < t.len() && (t[m as int] == 'e' || t[m as int] == 'E') {
        let b = m + 1 + sign_len(t.skip(m + 1 as int));
        let d3 = numeral_run(t.skip(b as int), 10, false);
        if d3 == 0 {
            None
        } else {
            Some(b + d3)
        }
    } else {
        Some(m)
    }
}

fn sign_at(input: &Span, i: usize) -> (r: usize)
    requires
        i <= input@.fragment.len(),
    ensures
        r == sign_len(input@.fragment.skip(i as int)),
        i + r <= input@.fragment.len(),
        all_ascii(input@.fragment.subrange(i as int, i + r)),
{
    if i < input.len() {
        let c = input.char_at(i);
        assert(input@.fragment.skip(i as int)[0] == c);
        if c == '+' || c == '-' {
            assert(input@.fragment.subrange(i as int, i + 1)[0] == c);
            return 1;
        }
    }
    0
}

/// Two adjacent ASCII stretches make one.
proof fn lemma_ascii_join(s: Seq<char>, a: int, b: int, c: int)
    requires
        0 <= a <= b <= c <= s.len(),
        all_ascii(s.subrange(a, b)),
        all_ascii(s.subrange(b, c)),
    ensures
        all_ascii(s.subrange(a, c)),
{
    assert forall|k: int| 0 <= k < c - a implies is_ascii_char(#[trigger] s.subrange(a, c)[k]) by {
        if k < b - a {
            assert(s.subrange(a, c)[k] == s.subrange(a, b)[k]);
        } else {
            assert(s.subrange(a, c)[k] == s.subrange(b, c)[k - (b - a)]);
        }
    }
}

/// One character that is ASCII.
proof fn lemma_ascii_one(s: Seq<char>, i: int)
    requires
        0 <= i < s.len(),
        is_ascii_char(s[i]),
    ensures
        all_ascii(s.subrange(i, i + 1)),
{
    assert(s.subrange(i, i + 1)[0] == s[i]);
}

/// Recognizes a floating-point literal at the start of the remaining text
/// and returns its length in characters; the characters are ASCII.
pub fn float_literal_len(input: &Span) -> (r: Option<usize>)
    ensures
        match float_len(input@.fragment) {
            Some(n) => r == Some(n as usize) && n <= input@.fragment.len()
                && all_ascii(input@.fragment.take(n as int)),
            None => r is None,
        },
{
    let ghost t = input@.fragment;
    let len = input.len();
    let a = sign_at(input, 0);
    proof {
        assert(t.skip(0) =~= t);
    }
    let (p, _, _) = scan_numeral(input, a, 10, false);
    proof {
        lemma_ascii_join(t, 0, a as int, p as int);
    }
    let has_point = p < len && input.char_at(p) == '.';
    let m = if has_point {
        let (m, _, _) = scan_numeral(input, p + 1, 10, false);
        proof {
            lemma_ascii_one(t, p as int);
            lemma_ascii_join(t, 0, p as int, p + 1);
            lemma_ascii_join(t, 0, p + 1, m as int);
        }
        m
    } else {
        p
    };
    if m == a + (has_point as usize) {
        return None;
    }
    let mut end = m;
    if m < len {
        let c = input.char_at(m);
        if c == 'e' || c == 'E' {
            let b = m + 1 + sign_at(input, m + 1);
            let (e, _, _) = scan_numeral(input, b, 10, false);
            if e == b {
                return None;
            }
            proof {
                lemma_ascii_one(t, m as int);
                lemma_ascii_join(t, 0, m as int, m + 1);
                lemma_ascii_join(t, 0, m + 1, b as int);
                lemma_ascii_join(t, 0, b as int, e as int);
            }
            end = e;
        }
    }
    proof {
        assert(t.take(end as int) =~= t.subrange(0, end as int));
    }
    Some(end)
}

/// The digit character for `d` below 16, lower case past 9.
pub open spec fn digit_char_of(d: nat) -> char {
    if d == 0 {
        '0'
    } else if d == 1 {
        '1'
    } else if d == 2 {
        '2'
    } else if d == 3 {
        '3'
    } else if d == 4 {
        '4'
    } else if d == 5 {
        '5'
    } else if d == 6 {
        '6'
    } else if d == 7 {
        '7'
    } else if d == 8 {
        '8'
    } else if d == 9 {
        '9'
    } else if d == 10 {
        'a'
    } else if d == 11 {
        'b'
    } else if d == 12 {
        'c'
    } else if d == 13 {
        'd'
    } else if d == 14 {
        'e'
    } else {
        'f'
    }
}

/// The digits of `n` in base `radix`, most significant first, without
/// leading zeros: the canonical form of a numeral.
pub open spec fn radix_digits(n: nat, radix: nat) -> Seq<char>
    decreases n,
{
    if n < radix || !(radix == 2 || radix == 10 || radix == 16) {
        seq![digit_char_of(n)]
    } else {
        radix_digits(n / radix, radix).push(digit_char_of(n % radix))
    }
}

proof fn lemma_digit_char(d: nat, radix: nat)
    requires
        d < radix,
        radix == 2 || radix == 10 || radix == 16,
    ensures
        digit_value(digit_char_of(d)) == d,
        is_digit_in(digit_char_of(d), radix),
        digit_char_of(d) != '_',
{
}

pub proof fn lemma_radix_digits(n: nat, radix: nat)
    requires
        radix == 2 || radix == 10 || radix == 16,
    ensures
        numeral_value(radix_digits(n, radix), radix) == n,
        radix_digits(n, radix).len() > 0,
        forall|i: int| 0 <= i < radix_digits(n, radix).len() ==> is_digit_in(#[trigger] radix_digits(n, radix)[i], radix),
        forall|i: int| 0 <= i < radix_digits(n, radix).len() ==> #[trigger] radix_digits(n, radix)[i] != '_',
    decreases n,
{
    let ds = radix_digits(n, radix);
    if n < radix {
        lemma_digit_char(n, radix);
        assert(ds.drop_last() =~= Seq::<char>::empty());
        assert(numeral_value(ds.drop_last(), radix) == 0);
        assert(numeral_value(ds, radix) == 0 * radix + digit_value(ds.last()));
    } else {
        let q = n / radix;
        let d = n % radix;
        assert(d < radix) by {
            vstd::arithmetic::div_mod::lemma_mod_pos_bound(n as int, radix as int);
        }
        lemma_digit_char(d, radix);
        assert(q < n) by {
            vstd::arithmetic::div_mod::lemma_div_decreases(n as int, radix as int);
        }
        lemma_radix_digits(q, radix);
        assert(ds.drop_last() =~= radix_digits(q, radix));
        assert(n == q * radix + d) by {
            vstd::arithmetic::div_mod::lemma_fundamental_div_mod(n as int, radix as int);
        }
        assert(ds.last() == digit_char_of(d));
        assert(numeral_value(ds, radix) == numeral_value(radix_digits(q, radix), radix) * radix + d);
        assert forall|i: int| 0 <= i < ds.len() implies is_digit_in(#[trigger] ds[i], radix) && ds[i] != '_' by {
            if i < ds.len() - 1 {
                assert(ds[i] == radix_digits(q, radix)[i]);
            }
        }
    }
}

/// The canonical numeral of a positive number does not start with `0`.
pub proof fn lemma_radix_digits_lead(n: nat, radix: nat)
    requires
        n >= 1,
        radix == 2 || radix == 10 || radix == 16,
    ensures
        radix_digits(n, radix)[0] != '0',
        n < radix ==> radix_digits(n, radix).len() == 1,
    decreases n,
{
    if n >= radix {
        let q = n / radix;
        assert(q >= 1 && q < n) by {
            vstd::arithmetic::div_mod::lemma_div_decreases(n as int, radix as int);
            vstd::arithmetic::div_mod::lemma_div_is_ordered(radix as int, n as int, radix as int);
            vstd::arithmetic::div_mod::lemma_div_by_self(radix as int);
        }
        lemma_radix_digits_lead(q, radix);
        lemma_radix_digits(q, radix);
        assert(radix_digits(n, radix)[0] == radix_digits(q, radix)[0]);
    }
}

/// Text made only of numeral characters is read in full.
proof fn lemma_run_whole(body: Seq<char>, radix: nat, separators: bool)
    requires
        forall|i: int| 0 <= i < body.len() ==> is_numeral_char(#[trigger] body[i], radix, separators),
    ensures
        numeral_run(body, radix, separators) == body.len(),
    decreases body.len(),
{
    if body.len() > 0 {
        assert forall|i: int| 0 <= i < body.drop_first().len() implies is_numeral_char(
            #[trigger] body.drop_first()[i],
            radix,
            separators,
        ) by {
            assert(body.drop_first()[i] == body[i + 1]);
        }
        lemma_run_whole(body.drop_first(), radix, separators);
    }
}

proof fn lemma_prefixed_text(x: char, body: Seq<char>, radix: nat)
    requires
        forall|i: int| 0 <= i < body.len() ==> is_numeral_char(#[trigger] body[i], radix, true),
    ensures
        ({
            let s = seq!['0', x] + body;
            &&& s.skip(2) == body
            &&& numeral_run(s.skip(2), radix, true) == body.len()
            &&& s.subrange(2, 2 + numeral_run(s.skip(2), radix, true) as int) == body
        }),
{
    let s = seq!['0', x] + body;
    assert(s.skip(2) =~= body);
    lemma_run_whole(body, radix, true);
    assert(s.subrange(2, 2 + body.len() as int) =~= body);
}

/// A hexadecimal literal of `n`, with underscores placed anywhere among its
/// digits, reads back as `n`.
pub proof fn law_hexadecimal_round_trip(n: u32, body: Seq<char>)
    requires
        forall|i: int| 0 <= i < body.len() ==> is_numeral_char(#[trigger] body[i], 16, true),
        without_separators(body) == radix_digits(n as nat, 16),
    ensures
        hexadecimal_outcome(seq!['0', 'x'] + body) == (Outcome::Done { len: body.len() + 2, value: n }),
{
    lemma_radix_digits(n as nat, 16);
    lemma_prefixed_text('x', body, 16);
    let s = seq!['0', 'x'] + body;
    assert(s[0] == '0' && s[1] == 'x');
    assert(numeral_value(without_separators(body), 16) == n);
}

/// A binary literal of `n`, with underscores placed anywhere among its
/// digits, reads back as `n`.
pub proof fn law_binary_round_trip(n: u32, body: Seq<char>)
    requires
        forall|i: int| 0 <= i < body.len() ==> is_numeral_char(#[trigger] body[i], 2, true),
        without_separators(body) == radix_digits(n as nat, 2),
    ensures
        binary_outcome(seq!['0', 'b'] + body) == (Outcome::Done { len: body.len() + 2, value: n }),
{
    lemma_radix_digits(n as nat, 2);
    lemma_prefixed_text('b', body, 2);
    let s = seq!['0', 'b'] + body;
    assert(s[0] == '0' && s[1] == 'b');
    assert(numeral_value(without_separators(body), 2) == n);
}

/// A hexadecimal literal whose value exceeds 32 bits is a hard failure.
pub proof fn law_hexadecimal_overflow(body: Seq<char>)
    requires
        forall|i: int| 0 <= i < body.len() ==> is_numeral_char(#[trigger] body[i], 16, true),
        numeral_value(without_separators(body), 16) > u32::MAX,
    ensures
        hexadecimal_outcome(seq!['0', 'x'] + body)
            == (Outcome::<u32>::Fail { hard: true, kind: ErrorKind::InvalidHexString, at: 0 }),
{
    lemma_prefixed_text('x', body, 16);
}

/// A binary literal whose value exceeds 32 bits is a hard failure.
pub proof fn law_binary_overflow(body: Seq<char>)
    requires
        forall|i: int| 0 <= i < body.len() ==> is_numeral_char(#[trigger] body[i], 2, true),
        numeral_value(without_separators(body), 2) > u32::MAX,
    ensures
        binary_outcome(seq!['0', 'b'] + body)
            == (Outcome::<u32>::Fail { hard: true, kind: ErrorKind::InvalidBinaryString, at: 0 }),
{
    lemma_prefixed_text('b', body, 2);
}

/// The canonical decimal form of `n` reads back as `n`.
pub proof fn law_decimal_round_trip(n: u32)
    ensures
        decimal_outcome(radix_digits(n as nat, 10))
            == (Outcome::Done { len: radix_digits(n as nat, 10).len(), value: n }),
{
    let ds = radix_digits(n as nat, 10);
    lemma_radix_digits(n as nat, 10);
    lemma_run_whole(ds, 10, false);
    assert(ds.take(ds.len() as int) =~= ds);
}

} // verus!
