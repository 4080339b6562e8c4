//! Interrupt masking decisions for AArch64.
//!
//! Masking and unmasking happen through the `DAIF` system register. Its bit 7
//! (`I`) masks IRQs and bit 6 (`F`) masks FIQs. Disabling interrupts returns
//! the previous `DAIF` value; restoring it unmasks IRQ and FIQ only when that
//! saved value had both of them unmasked.

use vstd::prelude::*;

verus! {

/// Bits of `DAIF` that mask IRQ (bit 7) and FIQ (bit 6).
pub const DAIF_IRQ_FIQ: u64 = 0xC0;

/// Initialises the interrupt subsystem. The interrupt controller and the
/// vector table are not set up yet, so there is nothing to do.
pub fn interrupt_init() {
}

/// Whether `enable_interrupt(level)` unmasks IRQ and FIQ, for a `DAIF`
/// value `level` saved by `disable_interrupts`: exactly when that value had
/// neither IRQ nor FIQ masked. A level saved inside an enclosing critical
/// section (IRQ and FIQ already masked) therefore leaves them masked.
pub fn enable_interrupt_unmasks(level: u64) -> (r: bool)
    ensures
        r == (level & DAIF_IRQ_FIQ == 0),
{
    level & DAIF_IRQ_FIQ == 0
}

} // verus!
