use lib::gic::{
    gic_cpu_ctrl, gic_cpu_eoi, gic_cpu_intack, gic_dist_config, gic_dist_enable_clear, gic_dist_enable_set,
    gic_dist_igroup, gic_dist_pri, gic_dist_target, gic_dist_type, dist_init_top_offset, Gic, MmioWrite,
    CPU0_TARGETS, DEFAULT_PRIORITIES, GIC_CPU_BASE, GIC_DIST_BASE, GIC_IRQ_START, GIC_SPURIOUS_ID,
};

fn w(addr: usize, value: u32) -> MmioWrite {
    MmioWrite { addr, value }
}

fn zeroed() -> Gic {
    Gic { dist_base: 0, cpu_base: 0, offset: 0 }
}

#[test]
fn register_addresses_follow_the_bank_layout() {
    let d = GIC_DIST_BASE;
    assert_eq!(gic_dist_type(d), 0x0800_0004);
    assert_eq!(gic_dist_igroup(d, 33), 0x0800_0084);
    assert_eq!(gic_dist_enable_set(d, 27), 0x0800_0100);
    assert_eq!(gic_dist_enable_set(d, 64), 0x0800_0108);
    assert_eq!(gic_dist_enable_clear(d, 31), 0x0800_0180);
    assert_eq!(gic_dist_pri(d, 7), 0x0800_0404);
    assert_eq!(gic_dist_target(d, 1019), 0x0800_0BF8);
    assert_eq!(gic_dist_config(d, 47), 0x0800_0C08);
    assert_eq!(gic_cpu_ctrl(GIC_CPU_BASE), 0x0801_0000);
    assert_eq!(gic_cpu_intack(GIC_CPU_BASE), 0x0801_000C);
    assert_eq!(gic_cpu_eoi(GIC_CPU_BASE), 0x0801_0010);
}

#[test]
fn dist_init_with_32_lines() {
    let mut gic = zeroed();
    let writes = gic.dist_init(GIC_DIST_BASE, GIC_IRQ_START, 0);
    assert_eq!(gic.dist_base, GIC_DIST_BASE);
    assert_eq!(gic.offset, GIC_IRQ_START);
    assert_eq!(gic.cpu_base, 0);
    let d = GIC_DIST_BASE;
    let mut expected = vec![w(d, 0)];
    for i in 0..8 {
        expected.push(w(d + 0x400 + 4 * i, DEFAULT_PRIORITIES));
    }
    expected.push(w(d + 0x180, 0xffff_ffff));
    expected.push(w(d + 0x080, 0));
    expected.push(w(d, 1));
    assert_eq!(writes, expected);
}

#[test]
fn dist_init_with_96_lines() {
    let mut gic = zeroed();
    let d = GIC_DIST_BASE;
    let writes = gic.dist_init(d, 0, 0x0000_0402);
    assert_eq!(writes.len(), 52);
    assert_eq!(writes[0], w(d, 0));
    assert_eq!(&writes[1..5], &[w(d + 0xC08, 0), w(d + 0xC0C, 0), w(d + 0xC10, 0), w(d + 0xC14, 0)]);
    assert_eq!(writes[5], w(d + 0x820, CPU0_TARGETS));
    assert_eq!(writes[20], w(d + 0x85C, CPU0_TARGETS));
    assert_eq!(writes[21], w(d + 0x400, DEFAULT_PRIORITIES));
    assert_eq!(writes[44], w(d + 0x45C, DEFAULT_PRIORITIES));
    assert_eq!(&writes[45..48], &[w(d + 0x180, 0xffff_ffff), w(d + 0x184, 0xffff_ffff), w(d + 0x188, 0xffff_ffff)]);
    assert_eq!(&writes[48..51], &[w(d + 0x080, 0), w(d + 0x084, 0), w(d + 0x088, 0)]);
    assert_eq!(writes[51], w(d, 1));
}

#[test]
fn dist_init_caps_at_1020_interrupts() {
    let mut gic = zeroed();
    let d = GIC_DIST_BASE;
    let writes = gic.dist_init(d, 0, 0xffff_ffff);
    assert_eq!(writes.len(), 2 + 62 + 247 + 255 + 32 + 32);
    // The last configuration register written covers interrupts 1008..1023.
    assert_eq!(writes[62], w(d + 0xCFC, 0));
    assert_eq!(writes[writes.len() - 1], w(d, 1));
}

#[test]
fn dist_init_disables_while_configuring() {
    let mut gic = zeroed();
    let d = GIC_DIST_BASE;
    for gic_type in [0u32, 1, 5, 0x1f, 0x1234_5678] {
        let writes = gic.dist_init(d, 0, gic_type);
        assert_eq!(writes[0], w(d, 0));
        assert_eq!(writes[writes.len() - 1], w(d, 1));
        for x in &writes[1..writes.len() - 1] {
            assert!(d + 0x80 <= x.addr && x.addr <= d + 0xCFC);
        }
    }
}

#[test]
fn dist_init_covers_every_interrupt() {
    let mut gic = zeroed();
    let d = GIC_DIST_BASE;
    let writes = gic.dist_init(d, 0, 2);
    for n in 0u32..96 {
        assert!(writes.contains(&w(gic_dist_pri(d, n), DEFAULT_PRIORITIES)));
        assert!(writes.contains(&w(gic_dist_enable_clear(d, n), 0xffff_ffff)));
        assert!(writes.contains(&w(gic_dist_igroup(d, n), 0)));
        if n >= 32 {
            assert!(writes.contains(&w(gic_dist_config(d, n), 0)));
            assert!(writes.contains(&w(gic_dist_target(d, n), CPU0_TARGETS)));
        }
    }
}

#[test]
fn cpu_init_writes() {
    let mut gic = Gic { dist_base: 7, cpu_base: 0, offset: 3 };
    let c = GIC_CPU_BASE;
    let writes = gic.cpu_init(c);
    assert_eq!(gic.cpu_base, c);
    assert_eq!(gic.dist_base, 7);
    assert_eq!(gic.offset, 3);
    assert_eq!(writes, vec![w(c + 0x04, 0xF0), w(c + 0x08, 0x07), w(c, 0x01)]);
}

#[test]
fn enable_and_disable_irq() {
    let gic = Gic { dist_base: GIC_DIST_BASE, cpu_base: GIC_CPU_BASE, offset: 0 };
    assert_eq!(gic.enable_irq(27), w(0x0800_0100, 1 << 27));
    assert_eq!(gic.disable_irq(27), w(0x0800_0180, 1 << 27));
    assert_eq!(gic.enable_irq(33), w(0x0800_0104, 1 << 1));
    assert_eq!(gic.disable_irq(64), w(0x0800_0188, 1));
}

#[test]
fn get_irq_adds_the_offset() {
    let gic = Gic { dist_base: GIC_DIST_BASE, cpu_base: GIC_CPU_BASE, offset: 0 };
    assert_eq!(gic.get_irq(27), 27);
    assert_eq!(gic.get_irq(1022), 1022);
    let shifted = Gic { dist_base: GIC_DIST_BASE, cpu_base: GIC_CPU_BASE, offset: 32 };
    assert_eq!(shifted.get_irq(5), 37);
}

#[test]
fn get_irq_reports_no_interrupt_as_minus_one() {
    assert_eq!(GIC_SPURIOUS_ID, 1023);
    let gic = Gic { dist_base: GIC_DIST_BASE, cpu_base: GIC_CPU_BASE, offset: 0 };
    assert_eq!(gic.get_irq(1023), -1);
    let shifted = Gic { dist_base: GIC_DIST_BASE, cpu_base: GIC_CPU_BASE, offset: 32 };
    assert_eq!(shifted.get_irq(1023), -1);
}

#[test]
fn ack_irq_clears_pending_and_signals_end() {
    let gic = Gic { dist_base: GIC_DIST_BASE, cpu_base: GIC_CPU_BASE, offset: 32 };
    assert_eq!(gic.ack_irq(37), vec![w(0x0800_0280, 1 << 5), w(0x0801_0010, 5)]);
    let plain = Gic { dist_base: GIC_DIST_BASE, cpu_base: GIC_CPU_BASE, offset: 0 };
    assert_eq!(plain.ack_irq(27), vec![w(0x0800_0280, 1 << 27), w(0x0801_0010, 27)]);
    assert_eq!(plain.ack_irq(40), vec![w(0x0800_0284, 1 << 8), w(0x0801_0010, 40)]);
}

#[test]
fn ack_irq_below_offset_only_signals_end() {
    let gic = Gic { dist_base: GIC_DIST_BASE, cpu_base: GIC_CPU_BASE, offset: 32 };
    assert_eq!(gic.ack_irq(0), vec![w(0x0801_0010, 0xffff_ffe0)]);
    assert_eq!(gic.ack_irq(-32), vec![w(0x0801_0010, 0xffff_ffc0)]);
    let plain = Gic { dist_base: GIC_DIST_BASE, cpu_base: GIC_CPU_BASE, offset: 0 };
    assert_eq!(plain.ack_irq(-1), vec![w(0x0801_0010, 0xffff_ffff)]);
}

#[test]
fn ack_irq_clears_the_bit_of_the_acknowledged_interrupt() {
    // Offset 1: vector 33 is controller interrupt 32, bit 0 of pending word 1.
    let gic = Gic { dist_base: GIC_DIST_BASE, cpu_base: GIC_CPU_BASE, offset: 1 };
    assert_eq!(gic.ack_irq(33), vec![w(0x0800_0284, 0x1), w(0x0801_0010, 32)]);
    assert_eq!(gic.ack_irq(4), vec![w(0x0800_0280, 1 << 3), w(0x0801_0010, 3)]);
}

#[test]
fn ack_of_get_irq_echoes_the_acknowledged_value() {
    for offset in [0usize, 32] {
        let gic = Gic { dist_base: GIC_DIST_BASE, cpu_base: GIC_CPU_BASE, offset };
        for raw in [0u32, 27, 64, 1022] {
            let v = gic.get_irq(raw);
            let writes = gic.ack_irq(v);
            assert_eq!(writes[writes.len() - 1], w(GIC_CPU_BASE + 0x10, raw));
        }
    }
}

#[test]
fn dist_init_top_offset_is_the_highest_register_written() {
    assert_eq!(dist_init_top_offset(0), 0x41C);
    assert_eq!(dist_init_top_offset(2), 0xC14);
    assert_eq!(dist_init_top_offset(0x1f), 0xCFC);
    assert_eq!(dist_init_top_offset(0xffff_ffe0), 0x41C);
}

#[test]
fn dist_init_near_the_top_of_the_address_space() {
    let mut gic = zeroed();
    let d = usize::MAX - 0x500;
    let writes = gic.dist_init(d, 0, 0);
    assert_eq!(writes.len(), 12);
    assert_eq!(writes[8], w(d + 0x41C, DEFAULT_PRIORITIES));
    assert_eq!(writes[11], w(d, 1));
}

#[test]
fn dist_init_ignores_type_bits_above_lines_number() {
    let mut a = zeroed();
    let mut b = zeroed();
    assert_eq!(a.dist_init(GIC_DIST_BASE, 0, 0x2), b.dist_init(GIC_DIST_BASE, 0, 0xffff_ffe2));
}
