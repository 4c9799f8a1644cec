//! Reinterpretation between signed and unsigned 32-bit values.
use vstd::prelude::*;

verus! {

/// 2^32, the modulus of 32-bit wrapping arithmetic.
pub const WORD_MODULUS: u64 = 0x1_0000_0000;

/// The 32-bit pattern of an integer: its value modulo 2^32.
pub open spec fn wrap32(x: int) -> u32 {
    (x % (WORD_MODULUS as int)) as u32
}

/// The signed (two's-complement) value of a 32-bit pattern.
pub open spec fn signed_value(x: u32) -> int {
    if x < 0x8000_0000 {
        x as int
    } else {
        x as int - WORD_MODULUS as int
    }
}

/// Reinterpretation of a value as an unsigned 32-bit pattern.
pub trait ToUnsigned {
    spec fn unsigned_spec(&self) -> u32;

    fn to_u32(&self) -> (r: u32)
        ensures
            r == self.unsigned_spec(),
    ;
}

/// Reinterpretation of a value as a signed 32-bit integer.
pub trait ToSigned {
    spec fn signed_spec(&self) -> i32;

    fn to_i32(&self) -> (r: i32)
        ensures
            r == self.signed_spec(),
    ;
}

impl ToUnsigned for u32 {
    open spec fn unsigned_spec(&self) -> u32 {
        *self
    }

    fn to_u32(&self) -> (r: u32) {
        *self
    }
}

impl ToSigned for i32 {
    open spec fn signed_spec(&self) -> i32 {
        *self
    }

    fn to_i32(&self) -> (r: i32) {
        *self
    }
}

impl ToUnsigned for i32 {
    /// The bit pattern of a signed integer.
    open spec fn unsigned_spec(&self) -> u32 {
        wrap32(*self as int)
    }

    fn to_u32(&self) -> (r: u32) {
        if *self >= 0 {
            *self as u32
        } else {
            (*self as i64 + WORD_MODULUS as i64) as u32
        }
    }
}

impl ToSigned for u32 {
    /// The signed integer with this bit pattern.
    open spec fn signed_spec(&self) -> i32 {
        signed_value(*self) as i32
    }

    fn to_i32(&self) -> (r: i32) {
        if *self < 0x8000_0000 {
            let r = *self as i32;
            assert(r == signed_value(*self) as i32);
            assert(r == self.signed_spec());
            r
        } else {
            let v: i64 = *self as i64 - WORD_MODULUS as i64;
            assert(v == signed_value(*self));
            let r = v as i32;
            assert(r == signed_value(*self) as i32);
            assert(r == self.signed_spec());
            r
        }
    }
}

} // verus!
