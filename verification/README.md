# AArch64 kernel core, verified with Verus

- `src/gic.rs` — GICv2 interrupt controller: register address arithmetic and
  the exact register writes of distributor / CPU interface initialisation,
  interrupt enable / disable, acknowledge and end-of-interrupt, with laws
  about them.
- `src/list.rs` — circular doubly linked lists sharing one node memory
  (nodes addressed by index): init, insertion at front and back, removal,
  emptiness, first element, length, traversal, and laws relating them.
- `src/thread.rs` — thread control block and thread states.
- `src/interrupt.rs` — interrupt subsystem start-up and the `DAIF` restore
  decision.
- `app/` — the kernel image: device register access, the global controller,
  boot code and exception vectors (AArch64 only).
- `tests/` — executable tests of the library.
