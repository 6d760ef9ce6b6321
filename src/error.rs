use vstd::prelude::*;

use crate::op_code::OpCode;

verus! {

/// The fatal conditions of the interpreter and the scheduler.
#[derive(Debug, Clone, Copy, PartialEq, Eq, Structural)]
pub enum ChipError {
    /// A return was executed with an empty call stack.
    StackUnderflow,
    /// The instruction matches no known pattern of its class.
    UnknownOpcode(OpCode),
    /// The scheduler cannot make progress (a subsystem with a zero cycle duration).
    SchedulerStalled,
    /// A fetch or a memory-touching instruction addressed memory outside `[0, 4096)`.
    MemoryOutOfBounds,
}

} // verus!
