//! Verified core of a small AArch64 kernel: the GICv2 interrupt-controller
//! driver logic, the circular doubly linked list used by the scheduler, the
//! thread control block and the interrupt-mask decisions.
//!
//! The library performs no device access itself: driver operations return
//! the register writes to perform, and take the values read from registers
//! as arguments.

pub mod gic;
pub mod interrupt;
pub mod list;
pub mod thread;
