//! A register allocation engine for compiler backends.
//!
//! The client describes its program as a control-flow graph of instructions
//! whose operands name virtual registers with placement constraints; the
//! engine answers with a physical register or stack slot for every operand
//! and the moves that realise the assignment.
//!
//! The values that client and engine exchange are packed into machine
//! words: `regs` holds registers and spill slots, `operand` the mention
//! of a vreg by an instruction, `allocation` the place of an operand,
//! `index` and `point` instructions, blocks and the points between
//! instructions. `function` is the client's side: the interface through
//! which a program is read, and the plain data it is read into.
//! `machine` and `output` are the other two values of a run.
//!
//! A run goes through the program in this order. `wellformed` and `cfg`
//! say what a program owes the engine, and `cfg`, `ssa`, `liveness` and
//! `exposure` find what is wrong with one that may be run: the shape of
//! its graph, a vreg defined twice, a vreg that nothing defines, a vreg
//! read where its definition need not have come before.
//! `demand` says what an instruction asks of the registers, and `assign`
//! gives the operands of each instruction their registers, or finds that
//! the machine has too few. `homes` then gives every vreg the one place
//! in which it rests between its mentions, `moves` puts moves that have
//! to happen at once into an order, `edits` lays out the moves between
//! homes and registers and along the edges of the graph, and `engine`
//! makes the result of it all: allocations, edits, safepoint records,
//! and with `debuginfo` the places of labelled values. `checker` holds
//! what a result owes its program, and checks a result against it.

pub mod allocation;
pub mod function;
pub mod index;
pub mod machine;
pub mod operand;
pub mod output;
pub mod point;
pub mod regs;

pub use allocation::{Allocation, AllocationKind};
pub use engine::{run, run_program, try_run};
pub use function::{BlockData, Function, InstData, Program};
pub use index::{Block, Inst, InstRange};
pub use machine::MachineEnv;
pub use operand::{Operand, OperandConstraint, OperandKind, OperandPos};
pub use output::{Edit, Output, RegAllocError, RegallocOptions, Stats};
pub use point::{InstPosition, ProgPoint};
pub use regs::{PReg, RegClass, SpillSlot, VReg};
pub mod cfg;
pub mod ssa;
pub mod liveness;
pub mod demand;
pub mod edits;
pub mod assign;
pub mod homes;
pub mod moves;
pub mod checker;
pub mod engine;
pub mod wellformed;
pub mod debuginfo;
pub mod exposure;
