use vstd::prelude::*;

verus! {

/// Why the machine cannot go on with the current run.
#[derive(Clone, Copy, Debug, PartialEq, Eq, Structural)]
pub enum Chip8Error {
    /// The program image does not fit in memory.
    Capacity,
    /// An instruction fetch, a memory access or a key index beyond its bounds.
    OutOfBounds,
    /// A return with an empty call stack.
    StackUnderflow,
    /// A bit pattern that no instruction has.
    UnknownOpcode(u16),
}

} // verus!
