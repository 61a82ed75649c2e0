//! A small toolchain for the Q scripting language: a validated syntax tree is
//! lowered to a flat instruction sequence, serialized to a versioned binary
//! artifact, and executed by a stack-based virtual machine.

use vstd::prelude::*;

pub mod ast;
pub mod codec;
pub mod ir;
pub mod semantic;
pub mod vm;

verus! {

/// The version tag embedded in every serialized bytecode artifact.
/// Loading fails unless the tag in the payload equals this constant exactly.
pub const BYTECODE_VERSION: u32 = 1;

} // verus!
