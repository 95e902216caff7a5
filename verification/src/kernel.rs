use vstd::prelude::*;

verus! {

/// A byte written to an I/O port.
#[derive(Clone, Copy, Debug, PartialEq, Eq, Structural)]
pub struct PortWrite {
    pub port: u16,
    pub value: u8,
}

/// A 16-bit word written to an I/O port.
#[derive(Clone, Copy, Debug, PartialEq, Eq, Structural)]
pub struct PortWriteWord {
    pub port: u16,
    pub value: u16,
}

} // verus!
