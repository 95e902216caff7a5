use vstd::prelude::*;
use crate::kernel::PortWrite;

verus! {

/// One entry of the global descriptor table, as the processor reads it.
#[derive(Clone, Copy, Debug, PartialEq, Eq, Structural)]
pub struct GdtEntry {
    pub limit_low: u16,
    pub base_low: u16,
    pub base_mid: u8,
    pub access: u8,
    pub gran: u8,
    pub base_hi: u8,
}

/// One gate of the interrupt descriptor table.
#[derive(Clone, Copy, Debug, PartialEq, Eq, Structural)]
pub struct IdtEntry {
    pub base_low: u16,
    pub sel: u16,
    pub zero: u8,
    pub flags: u8,
    pub base_high: u16,
}

/// The segment entry for `base`, `limit`, access byte `acc` and granularity
/// flags `gran`: the base split in 16, 8 and 8 bits, the low 16 bits of the
/// limit, and its bits 16..20 beside the high nibble of `gran`.
pub open spec fn gdt_entry_spec(base: u32, limit: u32, acc: u8, gran: u8) -> GdtEntry {
    GdtEntry {
        limit_low: (limit & 0xFFFF) as u16,
        base_low: (base & 0xFFFF) as u16,
        base_mid: ((base >> 16u32) & 0xFF) as u8,
        base_hi: ((base >> 24u32) & 0xFF) as u8,
        access: acc,
        gran: (((limit >> 16u32) & 0x0F) as u8) | (gran & 0xF0),
    }
}

/// The base address that a segment entry describes.
pub open spec fn gdt_entry_base(e: GdtEntry) -> u32 {
    (e.base_low as u32) | ((e.base_mid as u32) << 16u32) | ((e.base_hi as u32) << 24u32)
}

/// The 20-bit limit that a segment entry describes.
pub open spec fn gdt_entry_limit(e: GdtEntry) -> u32 {
    (e.limit_low as u32) | (((e.gran & 0x0F) as u32) << 16u32)
}

/// An interrupt gate: handler address `base`, code segment `sel`, type byte `flags`.
pub open spec fn idt_entry_spec(base: u32, sel: u16, flags: u8) -> IdtEntry {
    IdtEntry {
        zero: 0,
        sel,
        flags,
        base_high: (base >> 16u32) as u16,
        base_low: (base & 0xFFFF) as u16,
    }
}

/// The handler address that a gate describes.
pub open spec fn idt_entry_base(e: IdtEntry) -> u32 {
    (e.base_low as u32) | ((e.base_high as u32) << 16u32)
}

/// An entry with every field zero.
pub open spec fn empty_gdt_entry() -> GdtEntry {
    GdtEntry { limit_low: 0, base_low: 0, base_mid: 0, access: 0, gran: 0, base_hi: 0 }
}

/// A gate with every field zero.
pub open spec fn empty_idt_entry() -> IdtEntry {
    IdtEntry { base_low: 0, sel: 0, zero: 0, flags: 0, base_high: 0 }
}

/// Sets entry `num` of the descriptor table.
pub fn gdt_set_gate(table: &mut Vec<GdtEntry>, num: u8, base: u32, limit: u32, acc: u8, gran: u8)
    requires
        (num as int) < old(table).len(),
    ensures
        final(table)@ == old(table)@.update(num as int, gdt_entry_spec(base, limit, acc, gran)),
{
    let e = GdtEntry {
        limit_low: (limit & 0xFFFF) as u16,
        base_low: (base & 0xFFFF) as u16,
        base_mid: ((base >> 16) & 0xFF) as u8,
        base_hi: ((base >> 24) & 0xFF) as u8,
        access: acc,
        gran: (((limit >> 16) & 0x0F) as u8) | (gran & 0xF0),
    };
    table.set(num as usize, e);
}

/// Sets gate `num` of the interrupt table.
pub fn idt_set_gate(table: &mut Vec<IdtEntry>, num: u8, base: u32, sel: u16, flags: u8)
    requires
        (num as int) < old(table).len(),
    ensures
        final(table)@ == old(table)@.update(num as int, idt_entry_spec(base, sel, flags)),
{
    let e = IdtEntry {
        zero: 0,
        sel,
        flags,
        base_high: (base >> 16) as u16,
        base_low: (base & 0xFFFF) as u16,
    };
    table.set(num as usize, e);
}

/// A segment entry gives back the base it was made with, the low 20 bits
/// of its limit, its access byte, and the high nibble of its granularity.
pub proof fn lemma_gdt_entry_round_trip(base: u32, limit: u32, acc: u8, gran: u8)
    ensures
        gdt_entry_base(gdt_entry_spec(base, limit, acc, gran)) == base,
        gdt_entry_limit(gdt_entry_spec(base, limit, acc, gran)) == limit & 0xF_FFFF,
        gdt_entry_spec(base, limit, acc, gran).access == acc,
        gdt_entry_spec(base, limit, acc, gran).gran & 0xF0 == gran & 0xF0,
{
    let e = gdt_entry_spec(base, limit, acc, gran);
    let bl = e.base_low;
    let bm = e.base_mid;
    let bh = e.base_hi;
    let ll = e.limit_low;
    let g = e.gran;
    assert(((bl as u32) | ((bm as u32) << 16u32) | ((bh as u32) << 24u32)) == base) by (bit_vector)
        requires
            bl == (base & 0xFFFF) as u16,
            bm == ((base >> 16u32) & 0xFF) as u8,
            bh == ((base >> 24u32) & 0xFF) as u8,
    ;
    assert(((ll as u32) | (((g & 0x0F) as u32) << 16u32)) == limit & 0xF_FFFF) by (bit_vector)
        requires
            ll == (limit & 0xFFFF) as u16,
            g == (((limit >> 16u32) & 0x0F) as u8) | (gran & 0xF0),
    ;
    assert(g & 0xF0 == gran & 0xF0) by (bit_vector)
        requires
            g == (((limit >> 16u32) & 0x0F) as u8) | (gran & 0xF0),
    ;
}

/// A gate gives back the handler address it was made with.
pub proof fn lemma_idt_entry_round_trip(base: u32, sel: u16, flags: u8)
    ensures
        idt_entry_base(idt_entry_spec(base, sel, flags)) == base,
        idt_entry_spec(base, sel, flags).sel == sel,
        idt_entry_spec(base, sel, flags).flags == flags,
{
    let e = idt_entry_spec(base, sel, flags);
    let bl = e.base_low;
    let bh = e.base_high;
    assert(((bl as u32) | ((bh as u32) << 16u32)) == base) by (bit_vector)
        requires
            bl == (base & 0xFFFF) as u16,
            bh == (base >> 16u32) as u16,
    ;
}

/// The global descriptor table and the limit for its pointer.
pub struct Gdt {
    pub entries: Vec<GdtEntry>,
    pub limit: u16,
}

/// The interrupt descriptor table and the limit for its pointer.
pub struct Idt {
    pub entries: Vec<IdtEntry>,
    pub limit: u16,
}

/// Segment selector of the kernel code segment.
pub const KERNEL_CODE_SELECTOR: u16 = 0x08;

/// Flags of an interrupt gate: present, ring 0, 32-bit.
pub const INTERRUPT_GATE_FLAGS: u8 = 0x8E;

/// Number of gates that get a handler: exceptions 0..32, IRQs 32..48, and the
/// system-call handler at 48.
pub const HANDLED_GATES: usize = 49;

/// The descriptor table: the mandatory null entry, then flat 4 GiB kernel
/// code (offset 0x08) and data (offset 0x10) segments; the pointer's limit
/// is the size of three 8-byte entries, minus one.
pub fn initialize_gdt() -> (g: Gdt)
    ensures
        g.entries@ == seq![
            gdt_entry_spec(0, 0, 0, 0),
            gdt_entry_spec(0, 0xFFFFFFFF, 0x9A, 0xCF),
            gdt_entry_spec(0, 0xFFFFFFFF, 0x92, 0xCF),
        ],
        g.limit == 23,
{
    let mut entries: Vec<GdtEntry> = Vec::new();
    let z = GdtEntry { limit_low: 0, base_low: 0, base_mid: 0, access: 0, gran: 0, base_hi: 0 };
    entries.push(z);
    entries.push(z);
    entries.push(z);
    gdt_set_gate(&mut entries, 0, 0, 0, 0, 0);
    gdt_set_gate(&mut entries, 1, 0, 0xFFFFFFFF, 0x9A, 0xCF);
    gdt_set_gate(&mut entries, 2, 0, 0xFFFFFFFF, 0x92, 0xCF);
    assert(entries@ =~= seq![
        gdt_entry_spec(0, 0, 0, 0),
        gdt_entry_spec(0, 0xFFFFFFFF, 0x9A, 0xCF),
        gdt_entry_spec(0, 0xFFFFFFFF, 0x92, 0xCF),
    ]);
    Gdt { entries, limit: 8 * 3 - 1 }
}

/// The interrupt table: gate `i < 49` goes to handler `stubs[i]` (the 32
/// exception handlers, the 16 IRQ handlers, then the system-call handler),
/// through the kernel code segment as an interrupt gate; the others are
/// zero.  The pointer's limit covers the whole table, 256 entries of 8
/// bytes, minus one.
pub fn initialize_idt(stubs: &[u32]) -> (t: Idt)
    requires
        stubs.len() == HANDLED_GATES,
    ensures
        t.entries.len() == 256,
        forall|i: int|
            0 <= i < 256 ==> #[trigger] t.entries@[i] == if i < HANDLED_GATES {
                idt_entry_spec(stubs@[i], KERNEL_CODE_SELECTOR, INTERRUPT_GATE_FLAGS)
            } else {
                empty_idt_entry()
            },
        t.limit == 2047,
{
    let mut entries: Vec<IdtEntry> = Vec::new();
    while entries.len() < 256
        invariant
            entries.len() <= 256,
            forall|i: int| 0 <= i < entries.len() ==> #[trigger] entries@[i] == empty_idt_entry(),
        decreases 256 - entries.len(),
    {
        entries.push(IdtEntry { base_low: 0, sel: 0, zero: 0, flags: 0, base_high: 0 });
    }
    let mut n: u8 = 0;
    while (n as usize) < HANDLED_GATES
        invariant
            stubs.len() == HANDLED_GATES,
            n as int <= HANDLED_GATES,
            entries.len() == 256,
            forall|i: int|
                0 <= i < 256 ==> #[trigger] entries@[i] == if i < n {
                    idt_entry_spec(stubs@[i], KERNEL_CODE_SELECTOR, INTERRUPT_GATE_FLAGS)
                } else {
                    empty_idt_entry()
                },
        decreases HANDLED_GATES - n as int,
    {
        idt_set_gate(&mut entries, n, stubs[n as usize], KERNEL_CODE_SELECTOR, INTERRUPT_GATE_FLAGS);
        n = n + 1;
    }
    Idt { entries, limit: 8 * 256 - 1 }
}

/// The commands that move the IRQs of the two interrupt controllers to
/// vectors 32..48: initialise both, give their offsets (0x20 and 0x28),
/// chain them (IRQ 2), set 8086 mode, and unmask every line.
pub fn remap_irq() -> (w: Vec<PortWrite>)
    ensures
        w@ == seq![
            PortWrite { port: 0x20, value: 0x11 },
            PortWrite { port: 0xA0, value: 0x11 },
            PortWrite { port: 0x21, value: 0x20 },
            PortWrite { port: 0xA1, value: 0x28 },
            PortWrite { port: 0x21, value: 0x04 },
            PortWrite { port: 0xA1, value: 0x02 },
            PortWrite { port: 0x21, value: 0x01 },
            PortWrite { port: 0xA1, value: 0x01 },
            PortWrite { port: 0x21, value: 0x00 },
            PortWrite { port: 0xA1, value: 0x00 },
        ],
{
    let mut w = Vec::new();
    w.push(PortWrite { port: 0x20, value: 0x11 });
    w.push(PortWrite { port: 0xA0, value: 0x11 });
    w.push(PortWrite { port: 0x21, value: 0x20 });
    w.push(PortWrite { port: 0xA1, value: 0x28 });
    w.push(PortWrite { port: 0x21, value: 0x04 });
    w.push(PortWrite { port: 0xA1, value: 0x02 });
    w.push(PortWrite { port: 0x21, value: 0x01 });
    w.push(PortWrite { port: 0xA1, value: 0x01 });
    w.push(PortWrite { port: 0x21, value: 0x00 });
    w.push(PortWrite { port: 0xA1, value: 0x00 });
    assert(w@ =~= seq![
        PortWrite { port: 0x20, value: 0x11 },
        PortWrite { port: 0xA0, value: 0x11 },
        PortWrite { port: 0x21, value: 0x20 },
        PortWrite { port: 0xA1, value: 0x28 },
        PortWrite { port: 0x21, value: 0x04 },
        PortWrite { port: 0xA1, value: 0x02 },
        PortWrite { port: 0x21, value: 0x01 },
        PortWrite { port: 0xA1, value: 0x01 },
        PortWrite { port: 0x21, value: 0x00 },
        PortWrite { port: 0xA1, value: 0x00 },
    ]);
    w
}

} // verus!
