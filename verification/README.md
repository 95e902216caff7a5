# rust-calc, verified

A calculator that runs as a tiny 32-bit kernel. The kernel's logic lives in
`src/` and is verified with Verus; `app/` holds what touches the machine
(ports, VGA memory, interrupt entry points, floating point, the boot sequence)
and calls the library for every decision.

- `calc` — key buffer, operator tables, evaluator decisions
- `parse` — the expression reader (shunting-yard to postfix), specified as a
  character-by-character machine over the expression's bytes only, with the
  laws that its output is well-formed, that whatever it accepts has a
  complete postfix form, and that well-formed arithmetic is accepted
- `extra` — integer to text in any base
- `kheap` — the bitmap heap: blocks, unit bitmaps, length words; malloc,
  free, realloc, and the laws that free undoes malloc, where an allocation
  is placed (on a unit boundary, and overlapping no header, bitmap or live
  allocation)
- `desc_tables` — GDT and IDT entries and tables, IRQ remapping commands
- `isr` — interrupt handler table and dispatch
- `keyboard_driver` — scan code tables and shift state
- `screen` — text screens: cursor movement and the cells written
- `timer` — the clock, BCD conversion, timer ticks
- `kernel` — port write commands
