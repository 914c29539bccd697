//! The abstract machine: what one instruction, one timer tick, a reset or a
//! load does to the whole CHIP-8 state, stated over sequences and integers.
use vstd::prelude::*;

use crate::error::Chip8Error;

verus! {

pub const MEMORY_SIZE: usize = 4096;

pub const PROGRAM_START: u16 = 0x200;

pub const DISPLAY_WIDTH: usize = 64;

pub const DISPLAY_HEIGHT: usize = 32;

/// Size in bytes of one glyph of the built-in hexadecimal font.
pub const FONT_GLYPH_SIZE: u16 = 5;

/// The complete architectural state of the machine.
pub struct Chip8Model {
    pub memory: Seq<u8>,
    pub registers: Seq<u8>,
    pub i_register: u16,
    pub pc: u16,
    pub delay_timer: u8,
    pub sound_timer: u8,
    pub stack: Seq<u16>,
    /// Rows of pixels, `display[y][x]`.
    pub display: Seq<Seq<u8>>,
    pub keys: Seq<bool>,
    pub waiting_key_opcode: u16,
}

pub open spec fn blank_display() -> Seq<Seq<u8>> {
    Seq::new(32, |y: int| Seq::new(64, |x: int| 0u8))
}

/// The state every run starts from: all zero but the program counter.
pub open spec fn initial_model() -> Chip8Model {
    Chip8Model {
        memory: Seq::new(4096, |a: int| 0u8),
        registers: Seq::new(16, |k: int| 0u8),
        i_register: 0,
        pc: 0x200,
        delay_timer: 0,
        sound_timer: 0,
        stack: Seq::empty(),
        display: blank_display(),
        keys: Seq::new(16, |k: int| false),
        waiting_key_opcode: 0,
    }
}

/// Everything back to the start, but the loaded program stays in memory.
pub open spec fn restarted(m: Chip8Model) -> Chip8Model {
    Chip8Model { memory: m.memory, ..initial_model() }
}

/// A counter that goes down by one and stops at zero.
pub open spec fn tick(t: u8) -> u8 {
    if t > 0 {
        (t - 1) as u8
    } else {
        0
    }
}

pub open spec fn ticked(m: Chip8Model) -> Chip8Model {
    Chip8Model { delay_timer: tick(m.delay_timer), sound_timer: tick(m.sound_timer), ..m }
}

/// Loading a program image: a fresh machine whose memory holds `rom` from
/// `start` on; refused, leaving the state as it was, when it does not fit.
pub open spec fn loaded(rom: Seq<u8>, start: int) -> Chip8Model {
    Chip8Model {
        memory: Seq::new(
            4096,
            |a: int|
                if start <= a < start + rom.len() {
                    rom[a - start]
                } else {
                    0u8
                },
        ),
        ..initial_model()
    }
}

pub open spec fn fits(rom: Seq<u8>, start: int) -> bool {
    start + rom.len() <= 4096
}

/// The big-endian instruction word at address `a`.
pub open spec fn word_at(mem: Seq<u8>, a: int) -> u16 {
    (mem[a] as int * 256 + mem[a + 1] as int) as u16
}

/// The bits 8..12 of an instruction: the first register operand.
pub open spec fn op_x(op: u16) -> int {
    (op as int / 256) % 16
}

/// The bits 4..8 of an instruction: the second register operand.
pub open spec fn op_y(op: u16) -> int {
    (op as int / 16) % 16
}

/// The low byte of an instruction.
pub open spec fn op_nn(op: u16) -> u8 {
    (op as int % 256) as u8
}

/// The low 12 bits of an instruction: an address.
pub open spec fn op_nnn(op: u16) -> u16 {
    (op as int % 4096) as u16
}

/// The low 4 bits of an instruction.
pub open spec fn op_n(op: u16) -> int {
    op as int % 16
}

/// The opcode family: the top 4 bits.
pub open spec fn op_family(op: u16) -> int {
    op as int / 4096
}

/// Fetch: the pending key-wait instruction if there is one, else the word at
/// the program counter, which then moves past it.
pub open spec fn fetch(m: Chip8Model) -> Result<(Chip8Model, u16), Chip8Error> {
    if m.pc as int + 1 >= 4096 {
        Err(Chip8Error::OutOfBounds)
    } else if m.waiting_key_opcode != 0 {
        Ok((m, m.waiting_key_opcode))
    } else {
        Ok((Chip8Model { pc: (m.pc + 2) as u16, ..m }, word_at(m.memory, m.pc as int)))
    }
}

/// One whole instruction cycle; `rnd` is the random byte that the random
/// instruction would use.
pub open spec fn step(m: Chip8Model, rnd: u8) -> Result<Chip8Model, Chip8Error> {
    match fetch(m) {
        Ok((f, op)) => execute(f, op, rnd),
        Err(e) => Err(e),
    }
}

/// Whether `op` is an instruction of this machine.
pub open spec fn known_opcode(op: u16) -> bool {
    let f = op_family(op);
    if f == 0 {
        op == 0x00E0 || op == 0x00EE
    } else if f == 8 {
        op_n(op) <= 7 || op_n(op) == 0xE
    } else if f == 0xE {
        op_nn(op) == 0x9E || op_nn(op) == 0xA1
    } else if f == 0xF {
        let nn = op_nn(op);
        nn == 0x07 || nn == 0x0A || nn == 0x15 || nn == 0x18 || nn == 0x1E || nn == 0x29
            || nn == 0x33 || nn == 0x55 || nn == 0x65
    } else {
        true
    }
}

pub open spec fn skip_if(m: Chip8Model, cond: bool) -> Chip8Model {
    if cond {
        Chip8Model { pc: (m.pc + 2) as u16, ..m }
    } else {
        m
    }
}

pub open spec fn set_reg(m: Chip8Model, x: int, v: u8) -> Chip8Model {
    Chip8Model { registers: m.registers.update(x, v), ..m }
}

/// Sets register `x` to `v`, then the flag register to `flag`.
pub open spec fn set_reg_flag(m: Chip8Model, x: int, v: u8, flag: u8) -> Chip8Model {
    Chip8Model { registers: m.registers.update(x, v).update(15, flag), ..m }
}

pub open spec fn execute(m: Chip8Model, op: u16, rnd: u8) -> Result<Chip8Model, Chip8Error> {
    let f = op_family(op);
    if f == 0 {
        exec_system(m, op)
    } else if f == 1 {
        Ok(Chip8Model { pc: op_nnn(op), ..m })
    } else if f == 2 {
        Ok(Chip8Model { stack: m.stack.push(m.pc), pc: op_nnn(op), ..m })
    } else if f == 3 {
        Ok(skip_if(m, m.registers[op_x(op)] == op_nn(op)))
    } else if f == 4 {
        Ok(skip_if(m, m.registers[op_x(op)] != op_nn(op)))
    } else if f == 5 {
        Ok(skip_if(m, m.registers[op_x(op)] == m.registers[op_y(op)]))
    } else if f == 6 {
        Ok(set_reg(m, op_x(op), op_nn(op)))
    } else if f == 7 {
        Ok(set_reg(m, op_x(op), ((m.registers[op_x(op)] + op_nn(op)) % 256) as u8))
    } else if f == 8 {
        exec_alu(m, op)
    } else if f == 9 {
        Ok(skip_if(m, m.registers[op_x(op)] != m.registers[op_y(op)]))
    } else if f == 0xA {
        Ok(Chip8Model { i_register: op_nnn(op), ..m })
    } else if f == 0xB {
        Ok(Chip8Model { pc: (m.registers[0] + op_nnn(op)) as u16, ..m })
    } else if f == 0xC {
        Ok(set_reg(m, op_x(op), rnd & op_nn(op)))
    } else if f == 0xD {
        exec_draw(m, op)
    } else if f == 0xE {
        exec_key_skip(m, op)
    } else {
        exec_misc(m, op)
    }
}

/// Clear screen and return from subroutine.
pub open spec fn exec_system(m: Chip8Model, op: u16) -> Result<Chip8Model, Chip8Error> {
    if op == 0x00E0 {
        Ok(Chip8Model { display: blank_display(), ..m })
    } else if op == 0x00EE {
        if m.stack.len() == 0 {
            Err(Chip8Error::StackUnderflow)
        } else {
            Ok(Chip8Model { pc: m.stack.last(), stack: m.stack.drop_last(), ..m })
        }
    } else {
        Err(Chip8Error::UnknownOpcode(op))
    }
}

/// The register-register arithmetic and logic instructions.
pub open spec fn exec_alu(m: Chip8Model, op: u16) -> Result<Chip8Model, Chip8Error> {
    let x = op_x(op);
    let vx = m.registers[x];
    let vy = m.registers[op_y(op)];
    let n = op_n(op);
    if n == 0 {
        Ok(set_reg(m, x, vy))
    } else if n == 1 {
        Ok(set_reg(m, x, vx | vy))
    } else if n == 2 {
        Ok(set_reg(m, x, vx & vy))
    } else if n == 3 {
        Ok(set_reg(m, x, vx ^ vy))
    } else if n == 4 {
        Ok(
            set_reg_flag(
                m,
                x,
                ((vx + vy) % 256) as u8,
                if vx + vy > 255 {
                    1
                } else {
                    0
                },
            ),
        )
    } else if n == 5 {
        Ok(
            set_reg_flag(
                m,
                x,
                ((vx - vy + 256) % 256) as u8,
                if vx > vy {
                    1
                } else {
                    0
                },
            ),
        )
    } else if n == 6 {
        Ok(set_reg_flag(m, x, (vx / 2) as u8, (vx % 2) as u8))
    } else if n == 7 {
        Ok(
            set_reg_flag(
                m,
                x,
                ((vy - vx + 256) % 256) as u8,
                if vy < vx {
                    0
                } else {
                    1
                },
            ),
        )
    } else if n == 0xE {
        Ok(set_reg_flag(m, x, ((vx * 2) % 256) as u8, (vx / 128) as u8))
    } else {
        Err(Chip8Error::UnknownOpcode(op))
    }
}

/// How far `d` lies past `origin` on an axis of `size` cells that wraps
/// around.
pub open spec fn wrap_offset(d: int, origin: int, size: int) -> int {
    if d >= origin {
        d - origin
    } else {
        d + size - origin
    }
}

/// Bit `c` of a sprite row, counted from the most significant bit.
pub open spec fn sprite_bit(b: u8, c: int) -> u8 {
    (b >> ((7 - c) as u8)) & 1u8
}

/// What a draw of `n` rows from `base`, with its top-left corner at
/// `(x0, y0)`, XORs onto the pixel in row `dy` and column `dx`.
pub open spec fn draw_mask(mem: Seq<u8>, base: int, n: int, x0: int, y0: int, dy: int, dx: int) -> u8 {
    let r = wrap_offset(dy, y0, 32);
    let c = wrap_offset(dx, x0, 64);
    if r < n && c < 8 {
        sprite_bit(mem[base + r], c)
    } else {
        0
    }
}

pub open spec fn drawn_display(
    disp: Seq<Seq<u8>>,
    mem: Seq<u8>,
    base: int,
    n: int,
    x0: int,
    y0: int,
) -> Seq<Seq<u8>> {
    Seq::new(
        32,
        |dy: int|
            Seq::new(64, |dx: int| disp[dy][dx] ^ draw_mask(mem, base, n, x0, y0, dy, dx)),
    )
}

/// Some pixel that was on is hit by a set bit of the sprite.
pub open spec fn draw_collides(
    disp: Seq<Seq<u8>>,
    mem: Seq<u8>,
    base: int,
    n: int,
    x0: int,
    y0: int,
) -> bool {
    exists|dy: int, dx: int|
        0 <= dy < 32 && 0 <= dx < 64 && disp[dy][dx] > 0 && #[trigger] draw_mask(
            mem,
            base,
            n,
            x0,
            y0,
            dy,
            dx,
        ) > 0
}

/// Draw sprite: the sprite's rows are read from the index register on.
pub open spec fn exec_draw(m: Chip8Model, op: u16) -> Result<Chip8Model, Chip8Error> {
    let base = m.i_register as int;
    let n = op_n(op);
    let x0 = m.registers[op_x(op)] as int % 64;
    let y0 = m.registers[op_y(op)] as int % 32;
    if base + n > 4096 {
        Err(Chip8Error::OutOfBounds)
    } else {
        Ok(
            Chip8Model {
                display: drawn_display(m.display, m.memory, base, n, x0, y0),
                registers: m.registers.update(
                    15,
                    if draw_collides(m.display, m.memory, base, n, x0, y0) {
                        1u8
                    } else {
                        0u8
                    },
                ),
                ..m
            },
        )
    }
}

/// Skip if the key named by a register is (not) pressed.
pub open spec fn exec_key_skip(m: Chip8Model, op: u16) -> Result<Chip8Model, Chip8Error> {
    let key = m.registers[op_x(op)] as int;
    let nn = op_nn(op);
    if nn != 0x9E && nn != 0xA1 {
        Err(Chip8Error::UnknownOpcode(op))
    } else if key >= 16 {
        Err(Chip8Error::OutOfBounds)
    } else if nn == 0x9E {
        Ok(skip_if(m, m.keys[key]))
    } else {
        Ok(skip_if(m, !m.keys[key]))
    }
}

/// The lowest pressed key at index `from` or above; 16 when there is none.
pub open spec fn lowest_pressed(keys: Seq<bool>, from: int) -> int
    decreases 16 - from,
{
    if from >= 16 {
        16
    } else if keys[from] {
        from
    } else {
        lowest_pressed(keys, from + 1)
    }
}

/// Timers, key wait, index arithmetic, BCD and register block transfers.
pub open spec fn exec_misc(m: Chip8Model, op: u16) -> Result<Chip8Model, Chip8Error> {
    let x = op_x(op);
    let vx = m.registers[x];
    let i = m.i_register as int;
    let nn = op_nn(op);
    if nn == 0x07 {
        Ok(set_reg(m, x, m.delay_timer))
    } else if nn == 0x0A {
        let k = lowest_pressed(m.keys, 0);
        if k < 16 {
            Ok(Chip8Model { waiting_key_opcode: 0, ..set_reg(m, x, k as u8) })
        } else {
            Ok(Chip8Model { waiting_key_opcode: op, ..m })
        }
    } else if nn == 0x15 {
        Ok(Chip8Model { delay_timer: vx, ..m })
    } else if nn == 0x18 {
        Ok(Chip8Model { sound_timer: vx, ..m })
    } else if nn == 0x1E {
        Ok(Chip8Model { i_register: ((i + vx) % 65536) as u16, ..m })
    } else if nn == 0x29 {
        Ok(Chip8Model { i_register: ((vx % 16) * 5) as u16, ..m })
    } else if nn == 0x33 {
        if i + 3 > 4096 {
            Err(Chip8Error::OutOfBounds)
        } else {
            Ok(
                Chip8Model {
                    memory: m.memory.update(i, (vx / 100) as u8).update(i + 1, ((vx / 10) % 10) as u8).update(
                        i + 2,
                        (vx % 10) as u8,
                    ),
                    ..m
                },
            )
        }
    } else if nn == 0x55 {
        if i + x + 1 > 4096 {
            Err(Chip8Error::OutOfBounds)
        } else {
            Ok(
                Chip8Model {
                    memory: Seq::new(
                        4096,
                        |a: int|
                            if i <= a <= i + x {
                                m.registers[a - i]
                            } else {
                                m.memory[a]
                            },
                    ),
                    ..m
                },
            )
        }
    } else if nn == 0x65 {
        if i + x + 1 > 4096 {
            Err(Chip8Error::OutOfBounds)
        } else {
            Ok(
                Chip8Model {
                    registers: Seq::new(
                        16,
                        |k: int|
                            if k <= x {
                                m.memory[i + k]
                            } else {
                                m.registers[k]
                            },
                    ),
                    ..m
                },
            )
        }
    } else {
        Err(Chip8Error::UnknownOpcode(op))
    }
}

/// A handler's result `r` and the state `after` it left are what `expected`
/// says: the new state, or the error with the state `before` left as it was.
pub open spec fn outcome(
    r: Result<(), Chip8Error>,
    before: Chip8Model,
    after: Chip8Model,
    expected: Result<Chip8Model, Chip8Error>,
) -> bool {
    match expected {
        Ok(m) => r is Ok && after == m,
        Err(e) => r == Err::<(), Chip8Error>(e) && after == before,
    }
}

/// One instruction cycle's result `r` and the state `after` it left: the
/// new state of `step` on success; on a failed fetch the machine as it was;
/// on a failed instruction the machine as the fetch left it.
pub open spec fn cycle_outcome(
    r: Result<(), Chip8Error>,
    before: Chip8Model,
    after: Chip8Model,
    rnd: u8,
) -> bool {
    match fetch(before) {
        Ok((f, op)) => outcome(r, f, after, execute(f, op, rnd)),
        Err(e) => r == Err::<(), Chip8Error>(e) && after == before,
    }
}

/// A machine state whose sequences have the fixed sizes of the hardware.
pub open spec fn well_formed(m: Chip8Model) -> bool {
    &&& m.memory.len() == 4096
    &&& m.registers.len() == 16
    &&& m.keys.len() == 16
    &&& m.display.len() == 32
    &&& forall|y: int| 0 <= y < 32 ==> (#[trigger] m.display[y]).len() == 64
}

} // verus!
