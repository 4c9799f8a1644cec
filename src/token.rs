//! Values read from the source, with their positions.
use vstd::prelude::*;
use crate::arch::{FpReg, Reg};
use crate::expression::Operand;
use crate::span::Span;

verus! {

/// What an atomic parse produced.
#[derive(Debug)]
pub enum TokenValue {
    Register(Reg),
    FloatReg(FpReg),
    Expression(Operand),
}

/// A value read from the source, with the span where its text ends.
#[derive(Debug)]
pub struct Token<'a> {
    pub position: Span<'a>,
    pub value: TokenValue,
}

} // verus!
