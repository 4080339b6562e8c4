use lib::interrupt::{enable_interrupt_unmasks, interrupt_init, DAIF_IRQ_FIQ};
use lib::list::ListNode;
use lib::thread::{Thread, ThreadState, NAME_MAX};

#[test]
fn restore_unmasks_only_when_irq_and_fiq_were_unmasked() {
    assert!(enable_interrupt_unmasks(0));
    assert!(enable_interrupt_unmasks(0x300));
    assert!(enable_interrupt_unmasks(0x3_0000_0200));
    assert!(!enable_interrupt_unmasks(0x3C0));
    assert!(!enable_interrupt_unmasks(0x80));
    assert!(!enable_interrupt_unmasks(0x40));
    assert_eq!(DAIF_IRQ_FIQ, 0xC0);
}

#[test]
fn nested_critical_section_keeps_interrupts_masked() {
    // The level an inner critical section saves has IRQ and FIQ masked.
    let outer_level: u64 = 0x300;
    let inner_level = outer_level | DAIF_IRQ_FIQ;
    assert!(!enable_interrupt_unmasks(inner_level));
    assert!(enable_interrupt_unmasks(outer_level));
}

#[test]
fn interrupt_init_runs() {
    interrupt_init();
}

#[test]
fn thread_control_block_holds_its_fields() {
    let mut name = [0u8; NAME_MAX];
    name[..4].copy_from_slice(b"idle");
    let t = Thread {
        name,
        sp: 0x4000_1000,
        entry: 0x4008_0000,
        parameter: 0,
        stack_addr: 0x4000_0000,
        stack_size: 0x1000,
        current_priority: 31,
        init_priority: 31,
        state: ThreadState::Init,
        number_mask: 1 << 31,
        list_node: ListNode { prev: 0, next: 0 },
        init_tick: 10,
        remain_tick: 10,
        thread_timer: 0,
        cleanup: None,
        user_data: 0,
    };
    assert_eq!(&t.name[..4], b"idle");
    assert_eq!(t.state, ThreadState::Init);
    assert_ne!(t.state, ThreadState::Ready);
    assert_eq!(t.stack_addr + t.stack_size, 0x4000_1000);
    assert_eq!(NAME_MAX, 32);
}
