//! A CHIP-8 virtual machine: an instruction decoder, the machine state with
//! its interpreter, and a scheduler that turns elapsed time into cycle batches.

pub mod error;
pub mod op_code;
pub mod semantics;
pub mod state;
pub mod timing;
