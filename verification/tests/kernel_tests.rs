use lib::desc_tables::{
    gdt_set_gate, idt_set_gate, initialize_gdt, initialize_idt, remap_irq, GdtEntry, IdtEntry,
};
use lib::isr::{
    int_handler_dummy, irq_handler, isr_handler, register_interrupt_handler, HandlerTable, Registers,
};
use lib::kernel::PortWrite;
use lib::keyboard_driver::{check_shift, get_char, init_keyboard, KeyboardState};

#[test]
fn gdt_has_flat_segments() {
    let g = initialize_gdt();
    assert_eq!(g.limit, 23);
    assert_eq!(g.entries.len(), 3);
    let zero = GdtEntry { limit_low: 0, base_low: 0, base_mid: 0, access: 0, gran: 0, base_hi: 0 };
    assert_eq!(g.entries[0], zero);
    assert_eq!(
        g.entries[1],
        GdtEntry { limit_low: 0xFFFF, base_low: 0, base_mid: 0, access: 0x9A, gran: 0xCF, base_hi: 0 }
    );
    assert_eq!(
        g.entries[2],
        GdtEntry { limit_low: 0xFFFF, base_low: 0, base_mid: 0, access: 0x92, gran: 0xCF, base_hi: 0 }
    );
}

#[test]
fn law_gdt_entry_round_trip() {
    let zero = GdtEntry { limit_low: 0, base_low: 0, base_mid: 0, access: 0, gran: 0, base_hi: 0 };
    let mut t = vec![zero; 3];
    gdt_set_gate(&mut t, 2, 0x12345678, 0xABCDE, 0x92, 0xC5);
    let e = t[2];
    let base = (e.base_low as u32) | ((e.base_mid as u32) << 16) | ((e.base_hi as u32) << 24);
    let limit = (e.limit_low as u32) | (((e.gran & 0x0F) as u32) << 16);
    assert_eq!(base, 0x12345678);
    assert_eq!(limit, 0xABCDE);
    assert_eq!(e.access, 0x92);
    assert_eq!(e.gran & 0xF0, 0xC0);
    assert_eq!(t[0], zero);
}

#[test]
fn law_idt_entry_round_trip() {
    let zero = IdtEntry { base_low: 0, sel: 0, zero: 0, flags: 0, base_high: 0 };
    let mut t = vec![zero; 4];
    idt_set_gate(&mut t, 1, 0xC0DE_F00D, 0x08, 0x8E);
    let e = t[1];
    assert_eq!((e.base_low as u32) | ((e.base_high as u32) << 16), 0xC0DE_F00D);
    assert_eq!((e.sel, e.flags, e.zero), (0x08, 0x8E, 0));
}

#[test]
fn idt_has_49_gates() {
    let stubs: Vec<u32> = (0..49).map(|i| 0x0010_0000 + 0x10 * i as u32).collect();
    let t = initialize_idt(&stubs);
    assert_eq!(t.limit, 2047);
    assert_eq!(t.entries.len(), 256);
    for i in 0..49 {
        let e = t.entries[i];
        assert_eq!((e.base_low as u32) | ((e.base_high as u32) << 16), stubs[i]);
        assert_eq!((e.sel, e.flags, e.zero), (0x08, 0x8E, 0));
    }
    for i in 49..256 {
        assert_eq!(t.entries[i], IdtEntry { base_low: 0, sel: 0, zero: 0, flags: 0, base_high: 0 });
    }
}

#[test]
fn irq_remap_commands() {
    let w = remap_irq();
    let pairs: Vec<(u16, u8)> = w.iter().map(|p| (p.port, p.value)).collect();
    assert_eq!(
        pairs,
        vec![
            (0x20, 0x11), (0xA0, 0x11), (0x21, 0x20), (0xA1, 0x28), (0x21, 0x04),
            (0xA1, 0x02), (0x21, 0x01), (0xA1, 0x01), (0x21, 0x00), (0xA1, 0x00)
        ]
    );
}

fn regs(int_no: u32) -> Registers {
    Registers {
        ds: 0, edi: 0, esi: 0, ebp: 0, tampered_esp: 0, ebx: 0, edx: 0, ecx: 0, eax: 0,
        int_no, err_code: 0, eip: 0, cs: 0, eflags: 0, esp: 0, ss: 0,
    }
}

#[test]
fn law_registered_handler_dispatched() {
    let mut t: HandlerTable<u32> = HandlerTable::new(0);
    register_interrupt_handler(&mut t, 14, 7);
    assert_eq!(isr_handler(&t, &regs(14)), 7);
    // only the low byte of the number counts
    assert_eq!(isr_handler(&t, &regs(0x10E)), 7);
    assert_eq!(isr_handler(&t, &regs(13)), 0);
    assert_eq!(t.handler(255), 0);
}

#[test]
fn irq_end_of_interrupt() {
    let mut t: HandlerTable<u32> = HandlerTable::new(0);
    register_interrupt_handler(&mut t, 40, 4);
    let d = irq_handler(&t, &regs(40));
    assert_eq!(d.eoi, vec![PortWrite { port: 0xA0, value: 0x20 }, PortWrite { port: 0x20, value: 0x20 }]);
    assert_eq!(d.handler, 4);
    let d = irq_handler(&t, &regs(33));
    assert_eq!(d.eoi, vec![PortWrite { port: 0x20, value: 0x20 }]);
    assert_eq!(d.handler, 0);
}

#[test]
fn dummy_handler_does_nothing() {
    int_handler_dummy(&regs(3));
}

#[test]
fn keyboard_handler_on_vector_33() {
    let mut t: HandlerTable<u8> = HandlerTable::new(0);
    init_keyboard(&mut t, 9);
    assert_eq!(t.handler(33), 9);
    assert_eq!(t.handler(32), 0);
}

#[test]
fn scan_codes_to_characters() {
    let k = KeyboardState { shift_pressed: false };
    assert_eq!(get_char(&k, 0x1E), Some(b'a'));
    assert_eq!(get_char(&k, 0x02), Some(b'1'));
    assert_eq!(get_char(&k, 0x0D), Some(b'='));
    assert_eq!(get_char(&k, 0x1C), Some(b'\n'));
    assert_eq!(get_char(&k, 0x0E), Some(8));
    assert_eq!(get_char(&k, 0x39), Some(b' '));
    assert_eq!(get_char(&k, 0x4E), Some(b'+'));
    assert_eq!(get_char(&k, 0x37), Some(b'*'));
    // out of the table, or no character
    assert_eq!(get_char(&k, 0), None);
    assert_eq!(get_char(&k, 1), None);
    assert_eq!(get_char(&k, 88), None);
    assert_eq!(get_char(&k, 0x1D), None);
    assert_eq!(get_char(&k, 0x9E), None);
}

#[test]
fn shift_selects_shifted_table() {
    let mut k = KeyboardState { shift_pressed: false };
    check_shift(&mut k, 0x2A);
    assert!(k.shift_pressed);
    assert_eq!(get_char(&k, 0x1E), Some(b'A'));
    assert_eq!(get_char(&k, 0x02), Some(b'!'));
    assert_eq!(get_char(&k, 0x07), Some(b'^'));
    assert_eq!(get_char(&k, 0x0B), Some(b')'));
    check_shift(&mut k, 0x1E);
    assert!(k.shift_pressed);
    check_shift(&mut k, 0xAA);
    assert!(!k.shift_pressed);
    check_shift(&mut k, 0x36);
    assert!(k.shift_pressed);
    check_shift(&mut k, 0xB6);
    assert!(!k.shift_pressed);
}
