use vstd::prelude::*;
use crate::kernel::PortWrite;

verus! {

/// The registers that the interrupt stubs push before calling the handler.
#[derive(Clone, Copy, Debug, PartialEq, Eq, Structural)]
pub struct Registers {
    pub ds: u32,
    pub edi: u32,
    pub esi: u32,
    pub ebp: u32,
    pub tampered_esp: u32,
    pub ebx: u32,
    pub edx: u32,
    pub ecx: u32,
    pub eax: u32,
    pub int_no: u32,
    pub err_code: u32,
    pub eip: u32,
    pub cs: u32,
    pub eflags: u32,
    pub esp: u32,
    pub ss: u32,
}

/// The handler of interrupts that nothing registered for: it does nothing.
pub fn int_handler_dummy(_regs: &Registers) {
}

/// Number of interrupt vectors.
pub const INTERRUPT_VECTORS: usize = 256;

/// The handler registered for each of the 256 interrupt vectors.
pub struct HandlerTable<H> {
    handlers: Vec<H>,
}

impl<H: Copy> HandlerTable<H> {
    /// The handler of each vector.
    pub closed spec fn handlers_view(&self) -> Seq<H> {
        self.handlers@
    }

    /// Every vector has a handler.
    pub closed spec fn wf(&self) -> bool {
        self.handlers.len() == INTERRUPT_VECTORS
    }

    /// Every vector goes to `dummy`.
    pub fn new(dummy: H) -> (t: HandlerTable<H>)
        ensures
            t.wf(),
            t.handlers_view() == Seq::new(INTERRUPT_VECTORS as nat, |i: int| dummy),
    {
        let mut handlers: Vec<H> = Vec::new();
        while handlers.len() < INTERRUPT_VECTORS
            invariant
                handlers.len() <= INTERRUPT_VECTORS,
                forall|i: int| 0 <= i < handlers.len() ==> #[trigger] handlers@[i] == dummy,
            decreases INTERRUPT_VECTORS - handlers.len(),
        {
            handlers.push(dummy);
        }
        let t = HandlerTable { handlers };
        assert(t.handlers_view() =~= Seq::new(INTERRUPT_VECTORS as nat, |i: int| dummy));
        t
    }

    /// The handler of vector `ind`.
    pub fn handler(&self, ind: u8) -> (h: H)
        requires
            self.wf(),
        ensures
            h == self.handlers_view()[ind as int],
    {
        self.handlers[ind as usize]
    }
}

/// Makes `f` the handler of vector `ind`.
pub fn register_interrupt_handler<H: Copy>(table: &mut HandlerTable<H>, ind: u8, f: H)
    requires
        old(table).wf(),
    ensures
        final(table).wf(),
        final(table).handlers_view() == old(table).handlers_view().update(ind as int, f),
{
    table.handlers.set(ind as usize, f);
}

/// The vector an interrupt came in on: the low byte of its number.
pub open spec fn vector_of(regs: Registers) -> u8 {
    (regs.int_no & 0xff) as u8
}

/// The handler to call for a processor exception.
pub fn isr_handler<H: Copy>(table: &HandlerTable<H>, regs: &Registers) -> (h: H)
    requires
        table.wf(),
    ensures
        h == table.handlers_view()[vector_of(*regs) as int],
{
    let int_no: u8 = (regs.int_no & 0xff) as u8;
    table.handler(int_no)
}

/// After `f` is registered for vector `v`, an interrupt on `v` goes to `f`,
/// and one on any other vector to the handler it had.
pub proof fn lemma_registered_handler_dispatched<H>(handlers: Seq<H>, v: u8, f: H, regs: Registers)
    requires
        handlers.len() == INTERRUPT_VECTORS,
    ensures
        vector_of(regs) == v ==> handlers.update(v as int, f)[vector_of(regs) as int] == f,
        vector_of(regs) != v ==> handlers.update(v as int, f)[vector_of(regs) as int] == handlers[vector_of(regs) as int],
{
}

/// What an IRQ does: the end-of-interrupt commands, then the handler to call.
pub struct IrqDispatch<H> {
    pub eoi: Vec<PortWrite>,
    pub handler: H,
}

/// An IRQ: vectors from 40 on came through the second controller, which is
/// told first that the interrupt is over; the first one always is; then the
/// registered handler runs.
pub fn irq_handler<H: Copy>(table: &HandlerTable<H>, regs: &Registers) -> (d: IrqDispatch<H>)
    requires
        table.wf(),
    ensures
        d.eoi@ == if vector_of(*regs) >= 40 {
            seq![PortWrite { port: 0xA0, value: 0x20 }, PortWrite { port: 0x20, value: 0x20 }]
        } else {
            seq![PortWrite { port: 0x20, value: 0x20 }]
        },
        d.handler == table.handlers_view()[vector_of(*regs) as int],
{
    let int_no: u8 = (regs.int_no & 0xff) as u8;
    let mut eoi = Vec::new();
    if int_no >= 40 {
        eoi.push(PortWrite { port: 0xA0, value: 0x20 });
    }
    eoi.push(PortWrite { port: 0x20, value: 0x20 });
    proof {
        if int_no >= 40 {
            assert(eoi@ =~= seq![PortWrite { port: 0xA0, value: 0x20 }, PortWrite { port: 0x20, value: 0x20 }]);
        } else {
            assert(eoi@ =~= seq![PortWrite { port: 0x20, value: 0x20 }]);
        }
    }
    IrqDispatch { eoi, handler: table.handler(int_no) }
}

} // verus!
