//! A CHIP-8 interpreter core: memory, registers, call stack, framebuffer,
//! timers and the key-wait state, with each instruction's effect proved
//! against an abstract machine.
use vstd::prelude::*;

pub mod chip8;
pub mod error;
pub mod laws;
pub mod model;
mod rng;

verus! {

} // verus!
