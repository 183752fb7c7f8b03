//! An optimizing Brainfuck compiler and interpreter: source is parsed into a
//! tree IR, rewritten by a fixed pipeline of passes, lowered to a flat
//! instruction stream with linked jumps, and run over a byte tape.

pub mod ir;
pub mod parse;
pub mod fold;
pub mod mul;
pub mod dead;
pub mod flatten;
pub mod compile;
pub mod interp;
pub mod laws;
pub mod unique;

pub use crate::ir::{BaseInst, Inst, InstType};
pub use crate::parse::parse;
pub use crate::fold::{compress, fold_simple_loops, fold_skip_loops};
pub use crate::mul::fold_mul_loops;
pub use crate::dead::{remove_dead_writes, move_repeating_resets};
pub use crate::flatten::flatten;
pub use crate::compile::compile;
pub use crate::interp::{run_bounded, run_with_state, get_offset, exec_step, RunError, State};
