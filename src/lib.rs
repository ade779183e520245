//! A small compiler for a textual IR, each stage with its behaviour stated
//! and proved in Verus: a scanner from source text to tokens; the lowering
//! of a parsed function into a control-flow graph of basic blocks; liveness
//! analysis; register allocation with spilling; and x86-64 code generation.
use vstd::prelude::*;

pub mod codegen;
pub mod compiler;
pub mod liveness;
pub mod lowering;
pub mod regalloc;
pub mod scanner;

verus! {

} // verus!
