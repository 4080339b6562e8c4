//! Thread control block and thread life-cycle states, shared by every
//! kernel subsystem.

use vstd::prelude::*;

use crate::list::ListNode;

verus! {

/// Maximum number of bytes in a thread or file name.
pub const NAME_MAX: usize = 32;

/// Life-cycle state of a thread.
///
/// ```text
/// Init ──> Ready <──> Running ──> Suspend ──> Close
///            ^                       │
///            └───────────────────────┘
/// ```
#[derive(Clone, Copy, Debug, PartialEq, Eq, Structural)]
pub enum ThreadState {
    /// Just created, not yet on the ready queue.
    Init,
    /// Waiting to be scheduled.
    Ready,
    /// Executing on the CPU.
    Running,
    /// Waiting for an event (semaphore, delay, ...); not scheduled.
    Suspend,
    /// Exited, waiting to be reclaimed.
    Close,
}

/// Thread control block: everything the kernel keeps about one thread.
///
/// Code and memory locations (entry function, its parameter, stack, timer,
/// clean-up function) are held as machine addresses. The embedded
/// `list_node` links the thread into the scheduler's ready or suspend lists.
pub struct Thread {
    /// Thread name, at most `NAME_MAX` bytes.
    pub name: [u8; NAME_MAX],
    /// Saved stack pointer, written and restored on context switches.
    pub sp: u64,
    /// Address of the entry function, which takes one pointer argument and
    /// never returns.
    pub entry: usize,
    /// Argument passed to the entry function.
    pub parameter: usize,
    /// Lowest address of the thread's stack.
    pub stack_addr: usize,
    /// Size of the stack in bytes.
    pub stack_size: usize,
    /// Current priority (may change through priority inheritance).
    pub current_priority: u8,
    /// Priority given at creation.
    pub init_priority: u8,
    /// Life-cycle state.
    pub state: ThreadState,
    /// Mask locating the thread in the scheduler's priority bitmap.
    pub number_mask: u32,
    /// Node linking the thread into a scheduler list.
    pub list_node: ListNode,
    /// Time slice in ticks.
    pub init_tick: u32,
    /// Ticks left in the current time slice; the thread yields at zero.
    pub remain_tick: u32,
    /// Address of the timer used to wake the thread after a delay.
    pub thread_timer: usize,
    /// Address of the function called when the thread exits, if any.
    pub cleanup: Option<usize>,
    /// Free for the thread's owner.
    pub user_data: usize,
}

} // verus!
