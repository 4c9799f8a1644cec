//! Expression and literal front end for MIPS assembly: spans over source
//! text, literal decoding, register names, and operand expressions that are
//! parsed into trees and evaluated with 32-bit wrapping arithmetic.
pub mod span;
pub mod utils;
pub mod error;
pub mod expression;
pub mod literals;
pub mod arch;
pub mod token;
pub mod tree;
pub mod parser;
pub mod text;
