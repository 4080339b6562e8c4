//! GICv2 (Generic Interrupt Controller) driver logic.
//!
//! The controller is programmed through memory-mapped registers. This module
//! computes register addresses and the exact sequence of register writes each
//! driver operation performs; the caller carries the writes out on the device.

use vstd::prelude::*;
use vstd::arithmetic::power2::pow2;

verus! {

/// Physical base address of the GIC distributor.
pub const GIC_DIST_BASE: usize = 0x0800_0000;
/// Physical base address of the GIC CPU interface.
pub const GIC_CPU_BASE: usize = 0x0801_0000;

/// Distributor control register.
pub const GIC_DIST_CTRL: usize = 0x000;
/// Interrupt controller type register.
pub const GIC_DIST_TYPE: usize = 0x004;
/// Interrupt group registers (one bit per interrupt).
pub const GIC_DIST_IGROUP: usize = 0x080;
/// Interrupt set-enable registers (one bit per interrupt).
pub const GIC_DIST_ENABLE_SET: usize = 0x100;
/// Interrupt clear-enable registers (one bit per interrupt).
pub const GIC_DIST_ENABLE_CLEAR: usize = 0x180;
/// Interrupt set-pending registers (one bit per interrupt).
pub const GIC_DIST_PENDING_SET: usize = 0x200;
/// Interrupt clear-pending registers (one bit per interrupt).
pub const GIC_DIST_PENDING_CLEAR: usize = 0x280;
/// Interrupt set-active registers (one bit per interrupt).
pub const GIC_DIST_ACTIVE_SET: usize = 0x300;
/// Interrupt clear-active registers (one bit per interrupt).
pub const GIC_DIST_ACTIVE_CLEAR: usize = 0x380;
/// Interrupt priority registers (eight bits per interrupt).
pub const GIC_DIST_PRI: usize = 0x400;
/// Interrupt processor target registers (eight bits per interrupt).
pub const GIC_DIST_TARGET: usize = 0x800;
/// Interrupt configuration registers (two bits per interrupt).
pub const GIC_DIST_CONFIG: usize = 0xC00;
/// Software generated interrupt register.
pub const GIC_DIST_SOFTINT: usize = 0xF00;

/// CPU interface control register.
pub const GIC_CPU_CTRL: usize = 0x00;
/// Interrupt priority mask register.
pub const GIC_CPU_PRIMASK: usize = 0x04;
/// Binary point register.
pub const GIC_CPU_BINPOINT: usize = 0x08;
/// Interrupt acknowledge register.
pub const GIC_CPU_INTACK: usize = 0x0C;
/// End of interrupt register.
pub const GIC_CPU_EOI: usize = 0x10;
/// Running priority register.
pub const GIC_CPU_RUNNINGPRI: usize = 0x14;
/// Highest priority pending interrupt register.
pub const GIC_CPU_HIGHPRI: usize = 0x18;

/// First interrupt number handled by this controller.
pub const GIC_IRQ_START: usize = 0;
/// Interrupt id the acknowledge register reads when no interrupt is pending.
pub const GIC_SPURIOUS_ID: u32 = 1023;
/// Maximum number of interrupt handlers.
pub const GIC_MAX_HANDLERS: usize = 96;

/// Address of the register of a banked distributor register array that holds
/// interrupt `n`, when each 32-bit register covers `per_reg` interrupts.
pub open spec fn banked_addr(base: int, offset: int, n: int, per_reg: int) -> int {
    base + offset + (n / per_reg) * 4
}

/// Address of the distributor control register.
pub fn gic_dist_ctrl(base: usize) -> (r: usize)
    requires
        base + GIC_DIST_CTRL <= usize::MAX,
    ensures
        r == base + GIC_DIST_CTRL,
{
    base + GIC_DIST_CTRL
}


/// Address of the interrupt controller type register.
pub fn gic_dist_type(base: usize) -> (r: usize)
    requires
        base + GIC_DIST_TYPE <= usize::MAX,
    ensures
        r == base + GIC_DIST_TYPE,
{
    base + GIC_DIST_TYPE
}

/// Address of the software generated interrupt register.
pub fn gic_dist_softint(base: usize) -> (r: usize)
    requires
        base + GIC_DIST_SOFTINT <= usize::MAX,
    ensures
        r == base + GIC_DIST_SOFTINT,
{
    base + GIC_DIST_SOFTINT
}

/// Address of the CPU interface control register.
pub fn gic_cpu_ctrl(base: usize) -> (r: usize)
    requires
        base + GIC_CPU_CTRL <= usize::MAX,
    ensures
        r == base + GIC_CPU_CTRL,
{
    base + GIC_CPU_CTRL
}

/// Address of the priority mask register.
pub fn gic_cpu_primask(base: usize) -> (r: usize)
    requires
        base + GIC_CPU_PRIMASK <= usize::MAX,
    ensures
        r == base + GIC_CPU_PRIMASK,
{
    base + GIC_CPU_PRIMASK
}

/// Address of the binary point register.
pub fn gic_cpu_binpoint(base: usize) -> (r: usize)
    requires
        base + GIC_CPU_BINPOINT <= usize::MAX,
    ensures
        r == base + GIC_CPU_BINPOINT,
{
    base + GIC_CPU_BINPOINT
}

/// Address of the interrupt acknowledge register.
pub fn gic_cpu_intack(base: usize) -> (r: usize)
    requires
        base + GIC_CPU_INTACK <= usize::MAX,
    ensures
        r == base + GIC_CPU_INTACK,
{
    base + GIC_CPU_INTACK
}

/// Address of the end of interrupt register.
pub fn gic_cpu_eoi(base: usize) -> (r: usize)
    requires
        base + GIC_CPU_EOI <= usize::MAX,
    ensures
        r == base + GIC_CPU_EOI,
{
    base + GIC_CPU_EOI
}

/// Address of the highest priority pending interrupt register.
pub fn gic_cpu_highpri(base: usize) -> (r: usize)
    requires
        base + GIC_CPU_HIGHPRI <= usize::MAX,
    ensures
        r == base + GIC_CPU_HIGHPRI,
{
    base + GIC_CPU_HIGHPRI
}

/// Address of the group register that holds interrupt `n` (32 interrupts per register).
pub fn gic_dist_igroup(base: usize, n: u32) -> (r: usize)
    requires
        banked_addr(base as int, GIC_DIST_IGROUP as int, n as int, 32) <= usize::MAX,
    ensures
        r == banked_addr(base as int, GIC_DIST_IGROUP as int, n as int, 32),
{
    base + GIC_DIST_IGROUP + ((n / 32) * 4) as usize
}

/// Address of the set-enable register that holds interrupt `n` (32 interrupts per register).
pub fn gic_dist_enable_set(base: usize, n: u32) -> (r: usize)
    requires
        banked_addr(base as int, GIC_DIST_ENABLE_SET as int, n as int, 32) <= usize::MAX,
    ensures
        r == banked_addr(base as int, GIC_DIST_ENABLE_SET as int, n as int, 32),
{
    base + GIC_DIST_ENABLE_SET + ((n / 32) * 4) as usize
}

/// Address of the clear-enable register that holds interrupt `n` (32 interrupts per register).
pub fn gic_dist_enable_clear(base: usize, n: u32) -> (r: usize)
    requires
        banked_addr(base as int, GIC_DIST_ENABLE_CLEAR as int, n as int, 32) <= usize::MAX,
    ensures
        r == banked_addr(base as int, GIC_DIST_ENABLE_CLEAR as int, n as int, 32),
{
    base + GIC_DIST_ENABLE_CLEAR + ((n / 32) * 4) as usize
}

/// Address of the set-pending register that holds interrupt `n` (32 interrupts per register).
pub fn gic_dist_pending_set(base: usize, n: u32) -> (r: usize)
    requires
        banked_addr(base as int, GIC_DIST_PENDING_SET as int, n as int, 32) <= usize::MAX,
    ensures
        r == banked_addr(base as int, GIC_DIST_PENDING_SET as int, n as int, 32),
{
    base + GIC_DIST_PENDING_SET + ((n / 32) * 4) as usize
}

/// Address of the clear-pending register that holds interrupt `n` (32 interrupts per register).
pub fn gic_dist_pending_clear(base: usize, n: u32) -> (r: usize)
    requires
        banked_addr(base as int, GIC_DIST_PENDING_CLEAR as int, n as int, 32) <= usize::MAX,
    ensures
        r == banked_addr(base as int, GIC_DIST_PENDING_CLEAR as int, n as int, 32),
{
    base + GIC_DIST_PENDING_CLEAR + ((n / 32) * 4) as usize
}

/// Address of the set-active register that holds interrupt `n` (32 interrupts per register).
pub fn gic_dist_active_set(base: usize, n: u32) -> (r: usize)
    requires
        banked_addr(base as int, GIC_DIST_ACTIVE_SET as int, n as int, 32) <= usize::MAX,
    ensures
        r == banked_addr(base as int, GIC_DIST_ACTIVE_SET as int, n as int, 32),
{
    base + GIC_DIST_ACTIVE_SET + ((n / 32) * 4) as usize
}

/// Address of the clear-active register that holds interrupt `n` (32 interrupts per register).
pub fn gic_dist_active_clear(base: usize, n: u32) -> (r: usize)
    requires
        banked_addr(base as int, GIC_DIST_ACTIVE_CLEAR as int, n as int, 32) <= usize::MAX,
    ensures
        r == banked_addr(base as int, GIC_DIST_ACTIVE_CLEAR as int, n as int, 32),
{
    base + GIC_DIST_ACTIVE_CLEAR + ((n / 32) * 4) as usize
}

/// Address of the priority register that holds interrupt `n` (4 interrupts per register).
pub fn gic_dist_pri(base: usize, n: u32) -> (r: usize)
    requires
        banked_addr(base as int, GIC_DIST_PRI as int, n as int, 4) <= usize::MAX,
    ensures
        r == banked_addr(base as int, GIC_DIST_PRI as int, n as int, 4),
{
    base + GIC_DIST_PRI + ((n / 4) * 4) as usize
}

/// Address of the processor target register that holds interrupt `n` (4 interrupts per register).
pub fn gic_dist_target(base: usize, n: u32) -> (r: usize)
    requires
        banked_addr(base as int, GIC_DIST_TARGET as int, n as int, 4) <= usize::MAX,
    ensures
        r == banked_addr(base as int, GIC_DIST_TARGET as int, n as int, 4),
{
    base + GIC_DIST_TARGET + ((n / 4) * 4) as usize
}

/// Address of the configuration register that holds interrupt `n` (16 interrupts per register).
pub fn gic_dist_config(base: usize, n: u32) -> (r: usize)
    requires
        banked_addr(base as int, GIC_DIST_CONFIG as int, n as int, 16) <= usize::MAX,
    ensures
        r == banked_addr(base as int, GIC_DIST_CONFIG as int, n as int, 16),
{
    base + GIC_DIST_CONFIG + ((n / 16) * 4) as usize
}

/// One 32-bit write to a memory-mapped device register.
#[derive(Clone, Copy, Debug, PartialEq, Eq, Structural)]
pub struct MmioWrite {
    pub addr: usize,
    pub value: u32,
}

/// The banked distributor register arrays that distributor initialisation
/// walks over.
#[derive(Clone, Copy, Debug, PartialEq, Eq, Structural)]
pub enum DistBank {
    Config,
    Target,
    Priority,
    EnableClear,
    Group,
}

/// Offset of a bank's first register from the distributor base.
pub open spec fn bank_offset(bank: DistBank) -> int {
    match bank {
        DistBank::Config => GIC_DIST_CONFIG as int,
        DistBank::Target => GIC_DIST_TARGET as int,
        DistBank::Priority => GIC_DIST_PRI as int,
        DistBank::EnableClear => GIC_DIST_ENABLE_CLEAR as int,
        DistBank::Group => GIC_DIST_IGROUP as int,
    }
}

/// Number of interrupts covered by one 32-bit register of a bank.
pub open spec fn bank_per_reg(bank: DistBank) -> int {
    match bank {
        DistBank::Config => 16,
        DistBank::Target => 4,
        DistBank::Priority => 4,
        DistBank::EnableClear => 32,
        DistBank::Group => 32,
    }
}

/// Address of the register of `bank` that holds interrupt `n`.
pub open spec fn bank_addr_spec(base: usize, bank: DistBank, n: int) -> int {
    banked_addr(base as int, bank_offset(bank), n, bank_per_reg(bank))
}

/// Writing `value` to the register of `bank` holding interrupt `lo`, then to
/// the one holding `lo + per_reg`, and so on while the interrupt is below `hi`.
pub open spec fn bank_writes(base: usize, bank: DistBank, lo: int, hi: int, value: u32) -> Seq<MmioWrite>
    decreases (if lo < hi { hi - lo } else { 0 }),
{
    if lo >= hi {
        Seq::empty()
    } else {
        seq![MmioWrite { addr: bank_addr_spec(base, bank, lo) as usize, value }]
            + bank_writes(base, bank, lo + bank_per_reg(bank), hi, value)
    }
}

/// Number of interrupt lines the distributor supports, as read from its type
/// register (`ITLinesNumber`), capped at the architectural limit of 1020.
pub open spec fn dist_max_irq(gic_type: u32) -> int {
    let lines = ((gic_type & 0x1f) + 1) * 32;
    if lines > 1020 {
        1020
    } else {
        lines
    }
}

/// Value for a target register routing four interrupts to CPU 0.
pub const CPU0_TARGETS: u32 = 0x0101_0101;
/// Value for a priority register giving four interrupts priority 0xA0.
pub const DEFAULT_PRIORITIES: u32 = 0xa0a0_a0a0;

/// The register writes of distributor initialisation, in order: disable the
/// distributor; make every shared peripheral interrupt level-sensitive and
/// route it to CPU 0; give every interrupt priority 0xA0; disable every
/// interrupt; put every interrupt in group 0; enable the distributor.
pub open spec fn dist_init_writes(base: usize, gic_type: u32) -> Seq<MmioWrite> {
    let max = dist_max_irq(gic_type);
    seq![MmioWrite { addr: (base + GIC_DIST_CTRL) as usize, value: 0 }]
        + bank_writes(base, DistBank::Config, 32, max, 0)
        + bank_writes(base, DistBank::Target, 32, max, CPU0_TARGETS)
        + bank_writes(base, DistBank::Priority, 0, max, DEFAULT_PRIORITIES)
        + bank_writes(base, DistBank::EnableClear, 0, max, 0xffff_ffff)
        + bank_writes(base, DistBank::Group, 0, max, 0)
        + seq![MmioWrite { addr: (base + GIC_DIST_CTRL) as usize, value: 1 }]
}

/// The register writes of CPU interface initialisation: priority mask 0xF0,
/// binary point 7, then enable the interface.
pub open spec fn cpu_init_writes(base: usize) -> Seq<MmioWrite> {
    seq![
        MmioWrite { addr: (base + GIC_CPU_PRIMASK) as usize, value: 0xf0 },
        MmioWrite { addr: (base + GIC_CPU_BINPOINT) as usize, value: 0x07 },
        MmioWrite { addr: (base + GIC_CPU_CTRL) as usize, value: 0x01 },
    ]
}

/// Offset, from the distributor base, of the highest register distributor
/// initialisation writes: the configuration register of the last supported
/// interrupt when there are shared peripheral interrupts, otherwise the
/// priority register of the last one.
pub open spec fn dist_init_top(gic_type: u32) -> int {
    let max = dist_max_irq(gic_type);
    if max > 32 {
        GIC_DIST_CONFIG + ((max - 1) / 16) * 4
    } else {
        GIC_DIST_PRI + ((max - 1) / 4) * 4
    }
}

/// Every register distributor initialisation writes is addressable from
/// `base`.
pub open spec fn dist_init_fits(base: usize, gic_type: u32) -> bool {
    base + dist_init_top(gic_type) <= usize::MAX
}

/// Offset of the highest register that distributor initialisation writes,
/// for a distributor whose type register reads `gic_type`; `dist_init`
/// needs the distributor base plus this offset to be addressable.
pub fn dist_init_top_offset(gic_type: u32) -> (r: usize)
    ensures
        r == dist_init_top(gic_type),
{
    let lines: u32 = gic_type & 0x1F;
    assert(lines <= 31) by (bit_vector)
        requires
            lines == gic_type & 0x1F,
    ;
    let max: usize = ((lines + 1) * 32) as usize;
    let max: usize = if max > 1020 { 1020 } else { max };
    if max > 32 {
        GIC_DIST_CONFIG + ((max - 1) / 16) * 4
    } else {
        GIC_DIST_PRI + ((max - 1) / 4) * 4
    }
}

/// Address of the register of `bank` holding interrupt `n`.
fn bank_addr(bank: DistBank, base: usize, n: u32) -> (r: usize)
    requires
        bank_addr_spec(base, bank, n as int) <= usize::MAX,
    ensures
        r == bank_addr_spec(base, bank, n as int),
{
    match bank {
        DistBank::Config => gic_dist_config(base, n),
        DistBank::Target => gic_dist_target(base, n),
        DistBank::Priority => gic_dist_pri(base, n),
        DistBank::EnableClear => gic_dist_enable_clear(base, n),
        DistBank::Group => gic_dist_igroup(base, n),
    }
}

/// Number of interrupts covered by one register of `bank`.
fn bank_stride(bank: DistBank) -> (r: usize)
    ensures
        r == bank_per_reg(bank),
{
    match bank {
        DistBank::Config => 16,
        DistBank::Target => 4,
        DistBank::Priority => 4,
        DistBank::EnableClear => 32,
        DistBank::Group => 32,
    }
}

/// Appends `bank_writes(base, bank, lo, hi, value)` to `out`.
fn push_bank_writes(out: &mut Vec<MmioWrite>, base: usize, bank: DistBank, lo: usize, hi: usize, value: u32)
    requires
        lo < hi ==> bank_addr_spec(base, bank, hi - 1) <= usize::MAX,
        lo <= hi <= 1024,
    ensures
        final(out)@ == old(out)@ + bank_writes(base, bank, lo as int, hi as int, value),
{
    let ghost start = old(out)@;
    let mut i: usize = lo;
    let step = bank_stride(bank);
    while i < hi
        invariant
            lo <= i,
            lo < hi ==> bank_addr_spec(base, bank, hi - 1) <= usize::MAX,
            hi <= 1024,
            step == bank_per_reg(bank),
            0 < step <= 32,
            i <= hi + step,
            out@ + bank_writes(base, bank, i as int, hi as int, value) == start + bank_writes(base, bank, lo as int, hi as int, value),
        decreases hi + step - i,
    {
        assert((i as int) / (step as int) <= (hi - 1) / (step as int)) by (nonlinear_arith)
            requires
                0 <= i < hi,
                step > 0,
        ;
        let addr = bank_addr(bank, base, i as u32);
        let ghost before = out@;
        let w = MmioWrite { addr, value };
        out.push(w);
        assert(bank_writes(base, bank, i as int, hi as int, value) == seq![w] + bank_writes(base, bank, i + step, hi as int, value));
        assert(out@ + bank_writes(base, bank, i + step, hi as int, value) == before + bank_writes(base, bank, i as int, hi as int, value));
        i = i + step;
    }
}

/// Bit of interrupt `n` within its 32-interrupt enable or pending register.
pub open spec fn irq_bit(n: u32) -> u32 {
    1u32 << (n % 32)
}

/// The interrupt id `get_irq` reports for the acknowledge-register value
/// `intack`: the value read as a signed id, plus the controller's offset.
pub open spec fn intack_vector(gic: Gic, intack: u32) -> int {
    (intack as i32) + (gic.offset as i32)
}

/// The register writes of acknowledging (ending) interrupt `vector`: clear
/// its pending bit when the controller-relative id is not negative, then
/// write that id to the end-of-interrupt register.
pub open spec fn ack_irq_writes(gic: Gic, vector: i32) -> Seq<MmioWrite> {
    let irq = vector - (gic.offset as i32);
    let eoi = seq![MmioWrite { addr: (gic.cpu_base + GIC_CPU_EOI) as usize, value: irq as u32 }];
    if irq >= 0 {
        seq![
            MmioWrite {
                addr: banked_addr(gic.dist_base as int, GIC_DIST_PENDING_CLEAR as int, irq, 32) as usize,
                value: irq_bit(irq as u32),
            },
        ] + eoi
    } else {
        eoi
    }
}

/// `ack_irq` can run on `vector` without an arithmetic fault: the
/// controller-relative id fits in an `i32`, and the registers it writes are
/// addressable.
pub open spec fn ack_irq_ok(gic: Gic, vector: i32) -> bool {
    let irq = vector - (gic.offset as i32);
    &&& i32::MIN <= irq <= i32::MAX
    &&& irq >= 0 ==> banked_addr(gic.dist_base as int, GIC_DIST_PENDING_CLEAR as int, irq, 32) <= usize::MAX
    &&& gic.cpu_base + GIC_CPU_EOI <= usize::MAX
}

/// A GIC controller instance: the distributor and CPU interface base
/// addresses and the offset added to acknowledged interrupt ids.
pub struct Gic {
    pub dist_base: usize,
    pub cpu_base: usize,
    pub offset: usize,
}

impl Gic {
    /// Initialises the distributor at `dist_base`. `gic_type` is the value of
    /// its type register (`gic_dist_type(dist_base)`), read before the call.
    /// Records the base and the interrupt id offset, and returns the register
    /// writes to perform, in order.
    pub fn dist_init(&mut self, dist_base: usize, irq_start: usize, gic_type: u32) -> (writes: Vec<MmioWrite>)
        requires
            dist_init_fits(dist_base, gic_type),
        ensures
            final(self).dist_base == dist_base,
            final(self).offset == irq_start,
            final(self).cpu_base == old(self).cpu_base,
            writes@ == dist_init_writes(dist_base, gic_type),
    {
        self.dist_base = dist_base;
        self.offset = irq_start;

        let lines: u32 = gic_type & 0x1F;
        assert(lines <= 31) by (bit_vector)
            requires
                lines == gic_type & 0x1F,
        ;
        let gic_max_irq: usize = ((lines + 1) * 32) as usize;
        let gic_max_irq: usize = if gic_max_irq > 1020 { 1020 } else { gic_max_irq };
        proof {
            lemma_dist_init_banks_fit(dist_base, gic_type);
        }

        // Route to CPU 0: one target byte per interrupt, bit 0 set in each.
        let m0: u32 = 1 << 0;
        let m1: u32 = m0 | (m0 << 8);
        let m2: u32 = m1 | (m1 << 16);
        let cpu_mask: u32 = m2 | (m2 << 24);
        assert(cpu_mask == 0x0101_0101) by (bit_vector)
            requires
                m0 == 1u32 << 0u32,
                m1 == m0 | (m0 << 8u32),
                m2 == m1 | (m1 << 16u32),
                cpu_mask == m2 | (m2 << 24u32),
        ;

        let mut writes: Vec<MmioWrite> = Vec::new();
        // Disable the distributor while it is being configured.
        writes.push(MmioWrite { addr: gic_dist_ctrl(dist_base), value: 0x0 });
        // Shared peripheral interrupts: level-sensitive, routed to CPU 0.
        push_bank_writes(&mut writes, dist_base, DistBank::Config, 32, gic_max_irq, 0x00);
        push_bank_writes(&mut writes, dist_base, DistBank::Target, 32, gic_max_irq, cpu_mask);
        // Default priority for every interrupt.
        push_bank_writes(&mut writes, dist_base, DistBank::Priority, 0, gic_max_irq, 0xa0a0_a0a0);
        // Every interrupt starts disabled.
        push_bank_writes(&mut writes, dist_base, DistBank::EnableClear, 0, gic_max_irq, 0xffff_ffff);
        // Every interrupt in group 0.
        push_bank_writes(&mut writes, dist_base, DistBank::Group, 0, gic_max_irq, 0x00);
        // Enable the distributor.
        writes.push(MmioWrite { addr: gic_dist_ctrl(dist_base), value: 0x01 });
        assert(writes@ == dist_init_writes(dist_base, gic_type));
        writes
    }

    /// Initialises the CPU interface at `cpu_base`: records the base and
    /// returns the register writes to perform, in order.
    pub fn cpu_init(&mut self, cpu_base: usize) -> (writes: Vec<MmioWrite>)
        requires
            cpu_base + GIC_CPU_BINPOINT <= usize::MAX,
        ensures
            final(self).cpu_base == cpu_base,
            final(self).dist_base == old(self).dist_base,
            final(self).offset == old(self).offset,
            writes@ == cpu_init_writes(cpu_base),
    {
        self.cpu_base = cpu_base;
        let mut writes: Vec<MmioWrite> = Vec::new();
        // Priority mask 0xF0: interrupts of priority 0..=0xEF are signalled.
        writes.push(MmioWrite { addr: gic_cpu_primask(cpu_base), value: 0xF0 });
        // Binary point 7: group priority in the high bits, sub-priority below.
        writes.push(MmioWrite { addr: gic_cpu_binpoint(cpu_base), value: 0x07 });
        // Enable the CPU interface.
        writes.push(MmioWrite { addr: gic_cpu_ctrl(cpu_base), value: 0x01 });
        assert(writes@ == cpu_init_writes(cpu_base));
        writes
    }

    /// The register write that enables interrupt `irq_num`: its bit in the
    /// distributor's set-enable register.
    pub fn enable_irq(&self, irq_num: u32) -> (w: MmioWrite)
        requires
            banked_addr(self.dist_base as int, GIC_DIST_ENABLE_SET as int, irq_num as int, 32) <= usize::MAX,
        ensures
            w == (MmioWrite {
                addr: banked_addr(self.dist_base as int, GIC_DIST_ENABLE_SET as int, irq_num as int, 32) as usize,
                value: irq_bit(irq_num),
            }),
            w.addr == self.dist_base + GIC_DIST_ENABLE_SET + 4 * (irq_num / 32),
            w.value == pow2((irq_num % 32) as nat),
    {
        proof {
            lemma_irq_bit_is_power_of_two(irq_num);
        }
        let mask: u32 = 1 << (irq_num % 32);
        MmioWrite { addr: gic_dist_enable_set(self.dist_base, irq_num), value: mask }
    }

    /// The register write that disables interrupt `irq_num`: its bit in the
    /// distributor's clear-enable register.
    pub fn disable_irq(&self, irq_num: u32) -> (w: MmioWrite)
        requires
            banked_addr(self.dist_base as int, GIC_DIST_ENABLE_CLEAR as int, irq_num as int, 32) <= usize::MAX,
        ensures
            w == (MmioWrite {
                addr: banked_addr(self.dist_base as int, GIC_DIST_ENABLE_CLEAR as int, irq_num as int, 32) as usize,
                value: irq_bit(irq_num),
            }),
            w.addr == self.dist_base + GIC_DIST_ENABLE_CLEAR + 4 * (irq_num / 32),
            w.value == pow2((irq_num % 32) as nat),
    {
        proof {
            lemma_irq_bit_is_power_of_two(irq_num);
        }
        let mask: u32 = 1 << (irq_num % 32);
        MmioWrite { addr: gic_dist_enable_clear(self.dist_base, irq_num), value: mask }
    }

    /// The id of the highest-priority pending interrupt, given the value
    /// `intack` read from the acknowledge register
    /// (`gic_cpu_intack(self.cpu_base)`): -1 when no interrupt is waiting
    /// (the register reads the spurious id 1023), otherwise the value read as
    /// a signed id plus the controller's offset.
    pub fn get_irq(&self, intack: u32) -> (irq: i32)
        requires
            intack != GIC_SPURIOUS_ID ==> i32::MIN <= intack_vector(*self, intack) <= i32::MAX,
        ensures
            intack == GIC_SPURIOUS_ID ==> irq == -1,
            intack != GIC_SPURIOUS_ID ==> irq == intack_vector(*self, intack),
    {
        if intack == GIC_SPURIOUS_ID {
            return -1;
        }
        let irq = intack as i32;
        irq + self.offset as i32
    }

    /// The register writes that end the handling of interrupt `vector`
    /// (an id returned by `get_irq`), in order.
    pub fn ack_irq(&self, vector: i32) -> (writes: Vec<MmioWrite>)
        requires
            ack_irq_ok(*self, vector),
        ensures
            writes@ == ack_irq_writes(*self, vector),
    {
        let irq: i32 = vector - self.offset as i32;
        // Bit of the acknowledged interrupt within its pending register.
        let mask: u32 = 1 << ((irq as u32) % 32);

        let mut writes: Vec<MmioWrite> = Vec::new();
        // A real interrupt: clear its pending state.
        if irq >= 0 {
            writes.push(MmioWrite { addr: gic_dist_pending_clear(self.dist_base, irq as u32), value: mask });
        }
        // Signal end of interrupt to the CPU interface.
        writes.push(MmioWrite { addr: gic_cpu_eoi(self.cpu_base), value: irq as u32 });
        writes
    }
}


/// The number of supported interrupts is between 32 and 1020.
pub proof fn lemma_dist_max_irq_bounds(gic_type: u32)
    ensures
        32 <= dist_max_irq(gic_type) <= 1020,
        dist_max_irq(gic_type) % 4 == 0,
{
    let lines = gic_type & 0x1f;
    assert(lines <= 31) by (bit_vector)
        requires
            lines == gic_type & 0x1f,
    ;
}

/// The last register each bank walk of distributor initialisation reaches
/// lies at or below the highest register initialisation writes.
proof fn lemma_dist_init_banks_fit(base: usize, gic_type: u32)
    ensures
        32 <= dist_max_irq(gic_type) <= 1020,
        dist_max_irq(gic_type) > 32 ==> bank_addr_spec(base, DistBank::Config, dist_max_irq(gic_type) - 1)
            <= base + dist_init_top(gic_type),
        dist_max_irq(gic_type) > 32 ==> bank_addr_spec(base, DistBank::Target, dist_max_irq(gic_type) - 1)
            <= base + dist_init_top(gic_type),
        bank_addr_spec(base, DistBank::Priority, dist_max_irq(gic_type) - 1) <= base + dist_init_top(gic_type),
        bank_addr_spec(base, DistBank::EnableClear, dist_max_irq(gic_type) - 1) <= base + dist_init_top(gic_type),
        bank_addr_spec(base, DistBank::Group, dist_max_irq(gic_type) - 1) <= base + dist_init_top(gic_type),
        base + GIC_DIST_IGROUP <= bank_addr_spec(base, DistBank::Group, 0),
        base + GIC_DIST_IGROUP <= bank_addr_spec(base, DistBank::EnableClear, 0),
        base + GIC_DIST_IGROUP <= bank_addr_spec(base, DistBank::Priority, 0),
        base + GIC_DIST_IGROUP <= bank_addr_spec(base, DistBank::Target, 32),
        base + GIC_DIST_IGROUP <= bank_addr_spec(base, DistBank::Config, 32),
{
    lemma_dist_max_irq_bounds(gic_type);
}

proof fn lemma_same_register(lo: int, n: int, per: int)
    requires
        per > 0,
        lo % per == 0,
        lo <= n < lo + per,
    ensures
        n / per == lo / per,
        (lo + per) % per == 0,
{
    assert(n / per == lo / per) by (nonlinear_arith)
        requires
            per > 0,
            lo % per == 0,
            lo <= n < lo + per,
    ;
    assert((lo + per) % per == 0) by (nonlinear_arith)
        requires
            per > 0,
            lo % per == 0,
    ;
}

/// Walking a bank from a register boundary `lo` up to `hi` writes the
/// register of every interrupt `n` in between.
proof fn lemma_bank_writes_cover(base: usize, bank: DistBank, lo: int, hi: int, value: u32, n: int)
    requires
        lo % bank_per_reg(bank) == 0,
        lo <= n < hi,
    ensures
        bank_writes(base, bank, lo, hi, value).contains(
            MmioWrite { addr: bank_addr_spec(base, bank, n) as usize, value },
        ),
    decreases hi - lo,
{
    let per = bank_per_reg(bank);
    let w = MmioWrite { addr: bank_addr_spec(base, bank, n) as usize, value };
    let s = bank_writes(base, bank, lo, hi, value);
    lemma_same_register(lo, if n < lo + per { n } else { lo }, per);
    if n < lo + per {
        assert(s[0] == w);
    } else {
        lemma_bank_writes_cover(base, bank, lo + per, hi, value, n);
        let rest = bank_writes(base, bank, lo + per, hi, value);
        let i = choose|i: int| 0 <= i < rest.len() && rest[i] == w;
        assert(s[i + 1] == w);
    }
}

/// Every write of a bank walk from `lo` to `hi` carries `value` and goes to a
/// register between those of interrupts `lo` and `hi - 1`.
proof fn lemma_bank_writes_within(base: usize, bank: DistBank, lo: int, hi: int, value: u32)
    requires
        0 <= lo,
        lo < hi ==> bank_addr_spec(base, bank, hi - 1) <= usize::MAX,
    ensures
        forall|k: int|
            0 <= k < bank_writes(base, bank, lo, hi, value).len() ==> {
                let w = #[trigger] bank_writes(base, bank, lo, hi, value)[k];
                &&& w.value == value
                &&& bank_addr_spec(base, bank, lo) <= w.addr <= bank_addr_spec(base, bank, hi - 1)
            },
    decreases (if lo < hi { hi - lo } else { 0 }),
{
    let per = bank_per_reg(bank);
    let s = bank_writes(base, bank, lo, hi, value);
    if lo < hi {
        lemma_bank_writes_within(base, bank, lo + per, hi, value);
        assert(lo / per <= (lo + per) / per) by (nonlinear_arith)
            requires
                per > 0,
                0 <= lo,
        ;
        assert(lo / per <= (hi - 1) / per) by (nonlinear_arith)
            requires
                per > 0,
                0 <= lo <= hi - 1,
        ;
        assert forall|k: int| 0 <= k < s.len() implies {
            let w = #[trigger] s[k];
            &&& w.value == value
            &&& bank_addr_spec(base, bank, lo) <= w.addr <= bank_addr_spec(base, bank, hi - 1)
        } by {
            if k > 0 {
                assert(s[k] == bank_writes(base, bank, lo + per, hi, value)[k - 1]);
            }
        }
    }
}

/// Distributor initialisation switches the distributor off before anything
/// else and on again as its very last step; every write in between goes to a
/// configuration register of the distributor frame, never to its control
/// register.
pub proof fn lemma_dist_init_disables_while_configuring(base: usize, gic_type: u32)
    requires
        dist_init_fits(base, gic_type),
    ensures
        dist_init_writes(base, gic_type).len() >= 2,
        dist_init_writes(base, gic_type)[0] == (MmioWrite { addr: (base + GIC_DIST_CTRL) as usize, value: 0 }),
        dist_init_writes(base, gic_type).last() == (MmioWrite { addr: (base + GIC_DIST_CTRL) as usize, value: 1 }),
        forall|k: int|
            0 < k < dist_init_writes(base, gic_type).len() - 1 ==> {
                let a = #[trigger] dist_init_writes(base, gic_type)[k].addr;
                base + GIC_DIST_IGROUP <= a <= base + dist_init_top(gic_type)
            },
{
    lemma_dist_init_banks_fit(base, gic_type);
    let max = dist_max_irq(gic_type);
    lemma_dist_max_irq_bounds(gic_type);
    let c = bank_writes(base, DistBank::Config, 32, max, 0);
    let t = bank_writes(base, DistBank::Target, 32, max, CPU0_TARGETS);
    let p = bank_writes(base, DistBank::Priority, 0, max, DEFAULT_PRIORITIES);
    let e = bank_writes(base, DistBank::EnableClear, 0, max, 0xffff_ffff);
    let g = bank_writes(base, DistBank::Group, 0, max, 0);
    lemma_bank_writes_within(base, DistBank::Config, 32, max, 0);
    lemma_bank_writes_within(base, DistBank::Target, 32, max, CPU0_TARGETS);
    lemma_bank_writes_within(base, DistBank::Priority, 0, max, DEFAULT_PRIORITIES);
    lemma_bank_writes_within(base, DistBank::EnableClear, 0, max, 0xffff_ffff);
    lemma_bank_writes_within(base, DistBank::Group, 0, max, 0);
    let first = seq![MmioWrite { addr: (base + GIC_DIST_CTRL) as usize, value: 0 }];
    let last = seq![MmioWrite { addr: (base + GIC_DIST_CTRL) as usize, value: 1 }];
    let mid = c + t + p + e + g;
    let all = dist_init_writes(base, gic_type);
    assert(all == first + mid + last);
    assert forall|k: int| 0 < k < all.len() - 1 implies {
        let a = #[trigger] all[k].addr;
        base + GIC_DIST_IGROUP <= a <= base + dist_init_top(gic_type)
    } by {
        assert(all[k] == mid[k - 1]);
        let j = k - 1;
        if j < c.len() {
            assert(mid[j] == c[j]);
        } else if j < c.len() + t.len() {
            assert(mid[j] == t[j - c.len()]);
        } else if j < c.len() + t.len() + p.len() {
            assert(mid[j] == p[j - c.len() - t.len()]);
        } else if j < c.len() + t.len() + p.len() + e.len() {
            assert(mid[j] == e[j - c.len() - t.len() - p.len()]);
        } else {
            assert(mid[j] == g[j - c.len() - t.len() - p.len() - e.len()]);
        }
    }
}

/// Distributor initialisation sets up every supported interrupt `n`: it gives
/// it the default priority, disables it and puts it in group 0; a shared
/// peripheral interrupt (`n >= 32`) is also made level-sensitive and routed
/// to CPU 0.
pub proof fn lemma_dist_init_covers_every_interrupt(base: usize, gic_type: u32, n: int)
    requires
        0 <= n < dist_max_irq(gic_type),
    ensures
        dist_init_writes(base, gic_type).contains(
            MmioWrite { addr: banked_addr(base as int, GIC_DIST_PRI as int, n, 4) as usize, value: DEFAULT_PRIORITIES },
        ),
        dist_init_writes(base, gic_type).contains(
            MmioWrite { addr: banked_addr(base as int, GIC_DIST_ENABLE_CLEAR as int, n, 32) as usize, value: 0xffff_ffff },
        ),
        dist_init_writes(base, gic_type).contains(
            MmioWrite { addr: banked_addr(base as int, GIC_DIST_IGROUP as int, n, 32) as usize, value: 0 },
        ),
        n >= 32 ==> dist_init_writes(base, gic_type).contains(
            MmioWrite { addr: banked_addr(base as int, GIC_DIST_CONFIG as int, n, 16) as usize, value: 0 },
        ),
        n >= 32 ==> dist_init_writes(base, gic_type).contains(
            MmioWrite { addr: banked_addr(base as int, GIC_DIST_TARGET as int, n, 4) as usize, value: CPU0_TARGETS },
        ),
{
    let max = dist_max_irq(gic_type);
    let first = seq![MmioWrite { addr: (base + GIC_DIST_CTRL) as usize, value: 0 }];
    let last = seq![MmioWrite { addr: (base + GIC_DIST_CTRL) as usize, value: 1 }];
    let c = bank_writes(base, DistBank::Config, 32, max, 0);
    let t = bank_writes(base, DistBank::Target, 32, max, CPU0_TARGETS);
    let p = bank_writes(base, DistBank::Priority, 0, max, DEFAULT_PRIORITIES);
    let e = bank_writes(base, DistBank::EnableClear, 0, max, 0xffff_ffff);
    let g = bank_writes(base, DistBank::Group, 0, max, 0);
    let all = dist_init_writes(base, gic_type);
    assert(all == first + c + t + p + e + g + last);
    let off_t = 1 + c.len();
    let off_p = off_t + t.len();
    let off_e = off_p + p.len();
    let off_g = off_e + e.len();

    let wp = MmioWrite { addr: banked_addr(base as int, GIC_DIST_PRI as int, n, 4) as usize, value: DEFAULT_PRIORITIES };
    lemma_bank_writes_cover(base, DistBank::Priority, 0, max, DEFAULT_PRIORITIES, n);
    let i = choose|i: int| 0 <= i < p.len() && p[i] == wp;
    assert(all[off_p + i] == wp);

    let we = MmioWrite { addr: banked_addr(base as int, GIC_DIST_ENABLE_CLEAR as int, n, 32) as usize, value: 0xffff_ffff };
    lemma_bank_writes_cover(base, DistBank::EnableClear, 0, max, 0xffff_ffff, n);
    let i = choose|i: int| 0 <= i < e.len() && e[i] == we;
    assert(all[off_e + i] == we);

    let wg = MmioWrite { addr: banked_addr(base as int, GIC_DIST_IGROUP as int, n, 32) as usize, value: 0 };
    lemma_bank_writes_cover(base, DistBank::Group, 0, max, 0, n);
    let i = choose|i: int| 0 <= i < g.len() && g[i] == wg;
    assert(all[off_g + i] == wg);

    if n >= 32 {
        let wc = MmioWrite { addr: banked_addr(base as int, GIC_DIST_CONFIG as int, n, 16) as usize, value: 0 };
        lemma_bank_writes_cover(base, DistBank::Config, 32, max, 0, n);
        let i = choose|i: int| 0 <= i < c.len() && c[i] == wc;
        assert(all[1 + i] == wc);

        let wt = MmioWrite { addr: banked_addr(base as int, GIC_DIST_TARGET as int, n, 4) as usize, value: CPU0_TARGETS };
        lemma_bank_writes_cover(base, DistBank::Target, 32, max, CPU0_TARGETS, n);
        let i = choose|i: int| 0 <= i < t.len() && t[i] == wt;
        assert(all[off_t + i] == wt);
    }
}

/// Law: distributor initialisation depends on the type register only through
/// its `ITLinesNumber` field (bits 0..4): two type values that agree there
/// give the same register writes and need the same address range.
pub proof fn lemma_dist_init_reads_only_lines_number(base: usize, t1: u32, t2: u32)
    requires
        t1 & 0x1f == t2 & 0x1f,
    ensures
        dist_init_writes(base, t1) == dist_init_writes(base, t2),
        dist_init_top(t1) == dist_init_top(t2),
{
}

/// Acknowledging the id that `get_irq` derived from an acknowledge-register
/// value (other than the spurious id, which `get_irq` reports as -1) writes
/// that same value back to the end-of-interrupt register, as the GIC
/// requires.
pub proof fn lemma_ack_echoes_intack(gic: Gic, intack: u32)
    requires
        intack != GIC_SPURIOUS_ID,
        i32::MIN <= intack_vector(gic, intack) <= i32::MAX,
        ack_irq_ok(gic, intack_vector(gic, intack) as i32),
    ensures
        ack_irq_writes(gic, intack_vector(gic, intack) as i32).last()
            == (MmioWrite { addr: (gic.cpu_base + GIC_CPU_EOI) as usize, value: intack }),
{
    assert((intack as i32) as u32 == intack) by (bit_vector);
}

/// Law: the bit written for interrupt `n` in an enable or pending register
/// is the single bit `n % 32`, that is the value `2^(n % 32)`.
pub proof fn lemma_irq_bit_is_power_of_two(n: u32)
    ensures
        irq_bit(n) == pow2((n % 32) as nat),
        (irq_bit(n) >> (n % 32)) & 1 == 1,
{
    let k: u32 = n % 32;
    vstd::bits::lemma_u32_pow2_no_overflow(k as nat);
    vstd::bits::lemma_u32_shl_is_mul(1u32, k);
    assert(((1u32 << k) >> k) & 1 == 1) by (bit_vector)
        requires
            k < 32,
    ;
}

/// Law: the number of interrupts distributor initialisation configures is
/// `32 * (ITLinesNumber + 1)`, where `ITLinesNumber` is bits 0..4 of the type
/// register, except for the largest `ITLinesNumber` (31), where it is the
/// architectural limit 1020.
pub proof fn lemma_dist_max_irq_formula(t: u32)
    ensures
        (t & 0x1f) <= 31,
        (t & 0x1f) < 31 ==> dist_max_irq(t) == 32 * ((t & 0x1f) + 1),
        (t & 0x1f) == 31 ==> dist_max_irq(t) == 1020,
{
    assert((t & 0x1f) <= 31) by (bit_vector);
}

/// A bank walk from `lo` to `hi` writes one register per `per_reg`
/// interrupts: `ceil((hi - lo) / per_reg)` writes.
proof fn lemma_bank_writes_len(base: usize, bank: DistBank, lo: int, hi: int, value: u32)
    ensures
        bank_writes(base, bank, lo, hi, value).len() == (if lo >= hi {
            0
        } else {
            (hi - lo + bank_per_reg(bank) - 1) / bank_per_reg(bank)
        }),
    decreases (if lo < hi { hi - lo } else { 0 }),
{
    let per = bank_per_reg(bank);
    if lo < hi {
        lemma_bank_writes_len(base, bank, lo + per, hi, value);
        assert(1 + (if lo + per >= hi { 0 } else { (hi - (lo + per) + per - 1) / per }) == (hi - lo + per - 1) / per)
            by (nonlinear_arith)
            requires
                per > 0,
                lo < hi,
        {
            if lo + per >= hi {
                assert((hi - lo + per - 1) / per == 1);
            } else {
                assert((hi - lo + per - 1) / per == (hi - lo - 1) / per + 1);
            }
        }
    }
}

/// Law: for a type register value `t` with `ITLinesNumber` `L = t & 0x1f`,
/// distributor initialisation configures `n = min(32 * (L + 1), 1020)`
/// interrupts with exactly `2 + ceil((n - 32) / 16) + ceil((n - 32) / 4) +
/// ceil(n / 4) + 2 * ceil(n / 32)` writes: the two control writes, one
/// configuration register per 16 shared interrupts, one target register per
/// 4 shared interrupts, one priority register per 4 interrupts, and one
/// clear-enable and one group register per 32 interrupts.
pub proof fn lemma_dist_init_write_count(base: usize, t: u32)
    ensures
        ({
            let l = t & 0x1f;
            let n: int = if l == 31 { 1020 } else { 32 * (l + 1) };
            dist_init_writes(base, t).len() == 2 + (n - 32 + 15) / 16 + (n - 32 + 3) / 4 + (n + 3) / 4 + 2 * ((n
                + 31) / 32)
        }),
{
    let max = dist_max_irq(t);
    lemma_dist_max_irq_bounds(t);
    lemma_bank_writes_len(base, DistBank::Config, 32, max, 0);
    lemma_bank_writes_len(base, DistBank::Target, 32, max, CPU0_TARGETS);
    lemma_bank_writes_len(base, DistBank::Priority, 0, max, DEFAULT_PRIORITIES);
    lemma_bank_writes_len(base, DistBank::EnableClear, 0, max, 0xffff_ffff);
    lemma_bank_writes_len(base, DistBank::Group, 0, max, 0);
    lemma_dist_max_irq_formula(t);
    let l = t & 0x1f;
    let n: int = if l == 31 { 1020 } else { 32 * (l + 1) };
    assert(n == max);
    assert((n - 32 + 15) / 16 == (if 32 >= max { 0 } else { (max - 32 + 16 - 1) / 16 }));
    assert((n - 32 + 3) / 4 == (if 32 >= max { 0 } else { (max - 32 + 4 - 1) / 4 }));
}

/// Law: every write of distributor initialisation other than the first and
/// the last lies between the first group register and the last register of
/// the `n = min(32 * (L + 1), 1020)` configured interrupts: the
/// configuration register of interrupt `n - 1` when there are shared
/// interrupts (`n > 32`), otherwise the priority register of interrupt
/// `n - 1`. No register of an interrupt the distributor lacks is written.
pub proof fn lemma_dist_init_writes_only_supported_interrupts(base: usize, t: u32)
    requires
        dist_init_fits(base, t),
    ensures
        ({
            let l = t & 0x1f;
            let n: int = if l == 31 { 1020 } else { 32 * (l + 1) };
            let top: int = if n > 32 { base + 0xC00 + 4 * ((n - 1) / 16) } else { base + 0x400 + 4 * ((n - 1) / 4) };
            forall|k: int|
                0 < k < dist_init_writes(base, t).len() - 1 ==> base + 0x80 <= #[trigger] dist_init_writes(
                    base,
                    t,
                )[k].addr <= top
        }),
{
    lemma_dist_init_disables_while_configuring(base, t);
    lemma_dist_max_irq_formula(t);
}

/// Law: the CPU interface is initialised through the registers of the
/// interface at `cpu_base`: priority mask 0xF0 at `cpu_base + 4`, binary
/// point 7 at `cpu_base + 8`, then enable (1) at `cpu_base`.
pub proof fn lemma_cpu_init_writes_explicit(cpu_base: usize)
    requires
        cpu_base + 8 <= usize::MAX,
    ensures
        cpu_init_writes(cpu_base).len() == 3,
        cpu_init_writes(cpu_base)[0].addr == cpu_base + 4 && cpu_init_writes(cpu_base)[0].value == 0xF0,
        cpu_init_writes(cpu_base)[1].addr == cpu_base + 8 && cpu_init_writes(cpu_base)[1].value == 0x07,
        cpu_init_writes(cpu_base)[2].addr == cpu_base && cpu_init_writes(cpu_base)[2].value == 0x01,
{
}

/// Law: moving the CPU interface by `b2 - b1` moves every write of its
/// initialisation by the same amount and leaves the values unchanged.
pub proof fn lemma_cpu_init_follows_base(b1: usize, b2: usize)
    requires
        b1 + 8 <= usize::MAX,
        b2 + 8 <= usize::MAX,
    ensures
        cpu_init_writes(b1).len() == cpu_init_writes(b2).len(),
        forall|k: int|
            0 <= k < cpu_init_writes(b1).len() ==> #[trigger] cpu_init_writes(b1)[k].addr - b1
                == cpu_init_writes(b2)[k].addr - b2 && cpu_init_writes(b1)[k].value == cpu_init_writes(b2)[k].value,
{
    lemma_cpu_init_writes_explicit(b1);
    lemma_cpu_init_writes_explicit(b2);
}

/// Law: ending interrupt `vector` with controller-relative id
/// `irq = vector - offset` first clears, when `irq >= 0`, bit `irq % 32`
/// (value `2^(irq % 32)`) of the clear-pending register that holds `irq`,
/// at `dist_base + 0x280 + 4 * (irq / 32)` in this controller's distributor;
/// then it writes `irq` to the end-of-interrupt register at
/// `cpu_base + 0x10`. For `irq < 0` only the end-of-interrupt write is made,
/// of `irq` as a 32-bit two's complement value.
pub proof fn lemma_ack_irq_writes_explicit(gic: Gic, vector: i32)
    requires
        ack_irq_ok(gic, vector),
    ensures
        ({
            let irq = vector - (gic.offset as i32);
            let w = ack_irq_writes(gic, vector);
            &&& irq >= 0 ==> {
                &&& w.len() == 2
                &&& w[0].addr == gic.dist_base + 0x280 + 4 * (irq / 32)
                &&& w[0].value == pow2((irq % 32) as nat)
                &&& w[1].addr == gic.cpu_base + 0x10
                &&& w[1].value == irq
            }
            &&& irq < 0 ==> {
                &&& w.len() == 1
                &&& w[0].addr == gic.cpu_base + 0x10
                &&& w[0].value == irq + 0x1_0000_0000
            }
        }),
{
    let irq = vector - (gic.offset as i32);
    let x: i32 = irq as i32;
    assert(x as int == irq);
    if irq >= 0 {
        lemma_irq_bit_is_power_of_two(x as u32);
        assert((x as u32) as int == irq);
        assert(((x as u32) % 32) as int == irq % 32);
    } else {
        assert(x < 0 ==> (x as u32) as int == x + 0x1_0000_0000) by (bit_vector);
    }
}

/// Law: the clear-pending write of `ack_irq` is addressed from the
/// controller's own distributor: two controllers that differ only in their
/// distributor base clear the same bit at addresses that differ by exactly
/// the difference of their bases.
pub proof fn lemma_ack_irq_follows_dist_base(g1: Gic, g2: Gic, vector: i32)
    requires
        ack_irq_ok(g1, vector),
        ack_irq_ok(g2, vector),
        g1.offset == g2.offset,
        g1.cpu_base == g2.cpu_base,
        vector - (g1.offset as i32) >= 0,
    ensures
        ack_irq_writes(g1, vector)[0].addr - g1.dist_base == ack_irq_writes(g2, vector)[0].addr - g2.dist_base,
        ack_irq_writes(g1, vector)[0].value == ack_irq_writes(g2, vector)[0].value,
        ack_irq_writes(g1, vector)[1] == ack_irq_writes(g2, vector)[1],
{
    lemma_ack_irq_writes_explicit(g1, vector);
    lemma_ack_irq_writes_explicit(g2, vector);
}

} // verus!
