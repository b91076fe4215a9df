//! Interrupt vector numbering.
//!
//! The two programmable interrupt controllers are remapped above the CPU
//! exception range: the first PIC's vectors start at 32, the second's
//! eight vectors later. The hardware lines this kernel services get their
//! vector numbers from that base.

use vstd::prelude::*;

verus! {

/// First vector of the primary interrupt controller, above the 32 CPU
/// exception vectors.
pub const PIC_1_OFFSET: u8 = 32;

/// First vector of the secondary controller, eight lines later.
pub const PIC_2_OFFSET: u8 = PIC_1_OFFSET + 8;

/// The hardware interrupt lines the kernel handles, in vector order:
/// the timer on the primary controller's first line, the keyboard on its
/// second.
#[derive(Debug, Clone, Copy, PartialEq, Eq, Structural)]
pub enum InterruptIndex {
    Timer,
    Keyboard,
}

impl InterruptIndex {
    /// The interrupt's vector number: the controller base plus its line.
    pub fn as_u8(self) -> (v: u8)
        ensures
            self is Timer ==> v == PIC_1_OFFSET,
            self is Keyboard ==> v == PIC_1_OFFSET + 1,
    {
        match self {
            InterruptIndex::Timer => PIC_1_OFFSET,
            InterruptIndex::Keyboard => PIC_1_OFFSET + 1,
        }
    }

    /// The vector number as a table index.
    pub fn as_usize(self) -> (v: usize)
        ensures
            self is Timer ==> v == PIC_1_OFFSET,
            self is Keyboard ==> v == PIC_1_OFFSET + 1,
    {
        self.as_u8() as usize
    }
}

} // verus!
