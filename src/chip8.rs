//! The machine itself: its state and the operations a host drives it with.
use vstd::prelude::*;

use crate::error::Chip8Error;
use crate::model::{
    blank_display, draw_collides, draw_mask, exec_alu, execute, fetch, fits, initial_model,
    loaded, lowest_pressed, op_family, outcome, cycle_outcome, restarted, sprite_bit, ticked, well_formed,
    word_at, wrap_offset, Chip8Model, DISPLAY_HEIGHT, DISPLAY_WIDTH, FONT_GLYPH_SIZE,
    MEMORY_SIZE, PROGRAM_START,
};

verus! {

broadcast use vstd::array::group_array_axioms;

/// A CHIP-8 machine.
pub struct Chip8 {
    pub memory: [u8; 4096],
    pub registers: [u8; 16],
    pub i_register: u16,
    pub pc: u16,
    pub delay_timer: u8,
    pub sound_timer: u8,
    pub stack: Vec<u16>,
    /// Rows of pixels, `display[y][x]`; nonzero is on.
    pub display: [[u8; 64]; 32],
    pub keys: [bool; 16],
    /// The key-wait instruction being re-executed; zero while running.
    pub waiting_key_opcode: u16,
}

impl View for Chip8 {
    type V = Chip8Model;

    open spec fn view(&self) -> Chip8Model {
        Chip8Model {
            memory: self.memory@,
            registers: self.registers@,
            i_register: self.i_register,
            pc: self.pc,
            delay_timer: self.delay_timer,
            sound_timer: self.sound_timer,
            stack: self.stack@,
            display: Seq::new(32, |y: int| self.display@[y]@),
            keys: self.keys@,
            waiting_key_opcode: self.waiting_key_opcode,
        }
    }
}

impl Default for Chip8 {
    fn default() -> (r: Self)
        ensures
            r@ == initial_model(),
    {
        let r = Chip8 {
            memory: [0u8; 4096],
            registers: [0u8; 16],
            i_register: 0,
            pc: PROGRAM_START,
            delay_timer: 0,
            sound_timer: 0,
            stack: Vec::new(),
            display: [[0u8; 64]; 32],
            keys: [false; 16],
            waiting_key_opcode: 0,
        };
        proof {
            lemma_blank_view(r.display);
            assert(r@.memory =~= initial_model().memory);
            assert(r@.registers =~= initial_model().registers);
            assert(r@.keys =~= initial_model().keys);
            assert(r@.stack =~= initial_model().stack);
        }
        r
    }
}

/// The view of an all-zero framebuffer is the blank display.
proof fn lemma_blank_view(d: [[u8; 64]; 32])
    requires
        forall|y: int, x: int| 0 <= y < 32 && 0 <= x < 64 ==> #[trigger] d@[y]@[x] == 0,
    ensures
        Seq::new(32, |y: int| d@[y]@) == blank_display(),
{
    assert forall|y: int| 0 <= y < 32 implies #[trigger] d@[y]@ =~= blank_display()[y] by {
        assert forall|x: int| 0 <= x < 64 implies d@[y]@[x] == blank_display()[y][x] by {
            assert(d@[y]@[x] == 0);
        }
    }
    assert(Seq::new(32, |y: int| d@[y]@) =~= blank_display());
}

/// Every machine's state has the fixed sizes of the hardware, so the
/// properties stated of well-formed states hold of it.
pub proof fn lemma_view_well_formed(c: &Chip8)
    ensures
        well_formed(c@),
{
}

proof fn lemma_xor_zero()
    ensures
        forall|v: u8| #[trigger] (v ^ 0u8) == v,
{
    assert forall|v: u8| #[trigger] (v ^ 0u8) == v by {
        assert(v ^ 0u8 == v) by (bit_vector);
    }
}

/// The part of a draw done once all rows before `row`, and the first `col`
/// columns of row `row`, have been XORed on.
spec fn partial_mask(mem: Seq<u8>, base: int, n: int, x0: int, y0: int, dy: int, dx: int, row: int, col: int) -> u8 {
    let r = wrap_offset(dy, y0, 32);
    let c = wrap_offset(dx, x0, 64);
    if r < row || (r == row && c < col) {
        draw_mask(mem, base, n, x0, y0, dy, dx)
    } else {
        0
    }
}

spec fn partial_collides(disp: Seq<Seq<u8>>, mem: Seq<u8>, base: int, n: int, x0: int, y0: int, row: int, col: int) -> bool {
    exists|dy: int, dx: int|
        0 <= dy < 32 && 0 <= dx < 64 && disp[dy][dx] > 0
            && #[trigger] partial_mask(mem, base, n, x0, y0, dy, dx, row, col) > 0
}

/// Drawing the pixel of row `row` and column `col` changes the partial draw
/// at that pixel alone.
proof fn lemma_partial_step(disp: Seq<Seq<u8>>, mem: Seq<u8>, base: int, n: int, x0: int, y0: int, row: int, col: int)
    requires
        0 <= x0 < 64,
        0 <= y0 < 32,
        0 <= row < n < 16,
        0 <= col < 8,
    ensures
        ({
            let py = (y0 + row) % 32;
            let px = (x0 + col) % 64;
            &&& forall|dy: int, dx: int|
                0 <= dy < 32 && 0 <= dx < 64 && !(dy == py && dx == px) ==> #[trigger] partial_mask(mem, base, n, x0, y0, dy, dx, row, col + 1)
                    == partial_mask(mem, base, n, x0, y0, dy, dx, row, col)
            &&& partial_mask(mem, base, n, x0, y0, py, px, row, col) == 0
            &&& partial_mask(mem, base, n, x0, y0, py, px, row, col + 1) == sprite_bit(mem[base + row], col)
            &&& partial_collides(disp, mem, base, n, x0, y0, row, col + 1) == (partial_collides(disp, mem, base, n, x0, y0, row, col)
                || (disp[py][px] > 0 && sprite_bit(mem[base + row], col) > 0))
        }),
{
    let py = (y0 + row) % 32;
    let px = (x0 + col) % 64;
    assert(wrap_offset(py, y0, 32) == row);
    assert(wrap_offset(px, x0, 64) == col);
    assert forall|dy: int, dx: int|
        0 <= dy < 32 && 0 <= dx < 64 && !(dy == py && dx == px) implies #[trigger] partial_mask(mem, base, n, x0, y0, dy, dx, row, col + 1)
            == partial_mask(mem, base, n, x0, y0, dy, dx, row, col) by {
        if wrap_offset(dy, y0, 32) == row {
            assert(dy == py);
        }
        if dy == py && wrap_offset(dx, x0, 64) == col {
            assert(dx == px);
        }
    }
    let before = partial_collides(disp, mem, base, n, x0, y0, row, col);
    let after = partial_collides(disp, mem, base, n, x0, y0, row, col + 1);
    let here = disp[py][px] > 0 && sprite_bit(mem[base + row], col) > 0;
    if before {
        let (wy, wx) = choose|dy: int, dx: int|
            0 <= dy < 32 && 0 <= dx < 64 && disp[dy][dx] > 0
                && #[trigger] partial_mask(mem, base, n, x0, y0, dy, dx, row, col) > 0;
        assert(partial_mask(mem, base, n, x0, y0, wy, wx, row, col + 1) > 0);
    }
    if here {
        assert(partial_mask(mem, base, n, x0, y0, py, px, row, col + 1) > 0);
    }
    if after {
        let (wy, wx) = choose|dy: int, dx: int|
            0 <= dy < 32 && 0 <= dx < 64 && disp[dy][dx] > 0
                && #[trigger] partial_mask(mem, base, n, x0, y0, dy, dx, row, col + 1) > 0;
        if !(wy == py && wx == px) {
            assert(partial_mask(mem, base, n, x0, y0, wy, wx, row, col) > 0);
        }
    }
}

/// Past the eighth column a row is done: the partial draw is the same as at
/// the start of the next row.
proof fn lemma_partial_row_end(disp: Seq<Seq<u8>>, mem: Seq<u8>, base: int, n: int, x0: int, y0: int, row: int)
    requires
        0 <= x0 < 64,
        0 <= y0 < 32,
        0 <= row < n < 16,
    ensures
        forall|dy: int, dx: int| 0 <= dy < 32 && 0 <= dx < 64 ==> #[trigger] partial_mask(mem, base, n, x0, y0, dy, dx, row, 8)
            == partial_mask(mem, base, n, x0, y0, dy, dx, row + 1, 0),
        partial_collides(disp, mem, base, n, x0, y0, row, 8) == partial_collides(disp, mem, base, n, x0, y0, row + 1, 0),
{
    assert forall|dy: int, dx: int| 0 <= dy < 32 && 0 <= dx < 64 implies #[trigger] partial_mask(mem, base, n, x0, y0, dy, dx, row, 8)
        == partial_mask(mem, base, n, x0, y0, dy, dx, row + 1, 0) by {}
    if partial_collides(disp, mem, base, n, x0, y0, row, 8) {
        let (wy, wx) = choose|dy: int, dx: int|
            0 <= dy < 32 && 0 <= dx < 64 && disp[dy][dx] > 0
                && #[trigger] partial_mask(mem, base, n, x0, y0, dy, dx, row, 8) > 0;
        assert(partial_mask(mem, base, n, x0, y0, wy, wx, row + 1, 0) > 0);
    }
    if partial_collides(disp, mem, base, n, x0, y0, row + 1, 0) {
        let (wy, wx) = choose|dy: int, dx: int|
            0 <= dy < 32 && 0 <= dx < 64 && disp[dy][dx] > 0
                && #[trigger] partial_mask(mem, base, n, x0, y0, dy, dx, row + 1, 0) > 0;
        assert(partial_mask(mem, base, n, x0, y0, wy, wx, row, 8) > 0);
    }
}

/// After all `n` rows the partial draw is the whole draw.
proof fn lemma_partial_all(disp: Seq<Seq<u8>>, mem: Seq<u8>, base: int, n: int, x0: int, y0: int)
    requires
        0 <= x0 < 64,
        0 <= y0 < 32,
        0 <= n < 16,
    ensures
        forall|dy: int, dx: int| 0 <= dy < 32 && 0 <= dx < 64 ==> #[trigger] partial_mask(mem, base, n, x0, y0, dy, dx, n, 0)
            == draw_mask(mem, base, n, x0, y0, dy, dx),
        partial_collides(disp, mem, base, n, x0, y0, n, 0) == draw_collides(disp, mem, base, n, x0, y0),
{
    assert forall|dy: int, dx: int| 0 <= dy < 32 && 0 <= dx < 64 implies #[trigger] partial_mask(mem, base, n, x0, y0, dy, dx, n, 0)
        == draw_mask(mem, base, n, x0, y0, dy, dx) by {}
    if partial_collides(disp, mem, base, n, x0, y0, n, 0) {
        let (wy, wx) = choose|dy: int, dx: int|
            0 <= dy < 32 && 0 <= dx < 64 && disp[dy][dx] > 0
                && #[trigger] partial_mask(mem, base, n, x0, y0, dy, dx, n, 0) > 0;
        assert(draw_mask(mem, base, n, x0, y0, wy, wx) > 0);
    }
    if draw_collides(disp, mem, base, n, x0, y0) {
        let (wy, wx) = choose|dy: int, dx: int|
            0 <= dy < 32 && 0 <= dx < 64 && disp[dy][dx] > 0
                && #[trigger] draw_mask(mem, base, n, x0, y0, dy, dx) > 0;
        assert(partial_mask(mem, base, n, x0, y0, wy, wx, n, 0) > 0);
    }
}

impl Chip8 {
    /// One tick of the 60 Hz timers: each goes down by one, never below zero.
    pub fn update_timers(&mut self)
        ensures
            final(self)@ == ticked(old(self)@),
    {
        if self.delay_timer > 0 {
            self.delay_timer = self.delay_timer - 1;
        }
        if self.sound_timer > 0 {
            self.sound_timer = self.sound_timer - 1;
        }
    }

    /// Full reset: everything zero, the program counter at the program start.
    pub fn reset(&mut self)
        ensures
            final(self)@ == initial_model(),
    {
        self.memory = [0u8; 4096];
        self.restart();
        assert(self@.memory =~= initial_model().memory);
    }

    /// Restart the loaded program: as a reset, but memory is kept.
    pub fn restart(&mut self)
        ensures
            final(self)@ == restarted(old(self)@),
    {
        self.registers = [0u8; 16];
        self.i_register = 0;
        self.pc = PROGRAM_START;
        self.stack.clear();
        self.display = [[0u8; 64]; 32];
        self.keys = [false; 16];
        self.delay_timer = 0;
        self.sound_timer = 0;
        self.waiting_key_opcode = 0;
        proof {
            lemma_blank_view(self.display);
            assert(self@.registers =~= initial_model().registers);
            assert(self@.keys =~= initial_model().keys);
            assert(self@.stack =~= initial_model().stack);
        }
    }

    /// Loads a program image at `start_address` on a freshly reset machine.
    /// An image that does not fit is refused and the machine is left as it
    /// was.
    pub fn load_rom(&mut self, rom: &[u8], start_address: usize) -> (r: Result<(), Chip8Error>)
        ensures
            fits(rom@, start_address as int) ==> r is Ok && final(self)@ == loaded(
                rom@,
                start_address as int,
            ),
            !fits(rom@, start_address as int) ==> r == Err::<(), Chip8Error>(Chip8Error::Capacity)
                && final(self)@ == old(self)@,
    {
        if start_address > MEMORY_SIZE || rom.len() > MEMORY_SIZE - start_address {
            return Err(Chip8Error::Capacity);
        }
        self.reset();
        let mut i: usize = 0;
        while i < rom.len()
            invariant
                start_address + rom@.len() <= 4096,
                0 <= i <= rom@.len(),
                self@ == (Chip8Model { memory: self@.memory, ..initial_model() }),
                forall|a: int|
                    0 <= a < 4096 ==> #[trigger] self.memory@[a] == if start_address <= a
                        < start_address + i {
                        rom@[a - start_address]
                    } else {
                        0u8
                    },
            decreases rom@.len() - i,
        {
            self.memory[start_address + i] = rom[i];
            i = i + 1;
        }
        assert(self@.memory =~= loaded(rom@, start_address as int).memory);
        Ok(())
    }

    /// The instruction word at the program counter, for display; the state is
    /// not changed.
    pub fn get_current_opcode(&self) -> (r: u16)
        requires
            self.pc + 1 < 4096,
        ensures
            r == word_at(self@.memory, self.pc as int),
    {
        let byte1 = self.memory[self.pc as usize] as u16;
        let byte2 = self.memory[(self.pc + 1) as usize] as u16;
        byte1 * 256 + byte2
    }

    /// Fetch: the pending key-wait instruction, or the word at the program
    /// counter, which then moves on by two.
    fn get_opcode(&mut self) -> (r: Result<u16, Chip8Error>)
        ensures
            match fetch(old(self)@) {
                Ok((m, op)) => r == Ok::<u16, Chip8Error>(op) && final(self)@ == m,
                Err(e) => r == Err::<u16, Chip8Error>(e) && final(self)@ == old(self)@,
            },
    {
        if self.pc as usize + 1 >= MEMORY_SIZE {
            return Err(Chip8Error::OutOfBounds);
        }
        if self.waiting_key_opcode > 0 {
            return Ok(self.waiting_key_opcode);
        }
        let op = self.get_current_opcode();
        self.pc = self.pc + 2;
        Ok(op)
    }

    /// Clear screen, and return from subroutine.
    fn handle_0xxx(&mut self, opcode: u16) -> (r: Result<(), Chip8Error>)
        requires
            op_family(opcode) == 0,
        ensures
            outcome(r, old(self)@, final(self)@, execute(old(self)@, opcode, 0)),
    {
        if opcode == 0x00E0 {
            self.display = [[0u8; 64]; 32];
            proof {
                lemma_blank_view(self.display);
            }
            Ok(())
        } else if opcode == 0x00EE {
            match self.stack.pop() {
                Some(a) => {
                    self.pc = a;
                    Ok(())
                },
                None => Err(Chip8Error::StackUnderflow),
            }
        } else {
            Err(Chip8Error::UnknownOpcode(opcode))
        }
    }

    /// Jump.
    fn handle_1xxx(&mut self, opcode: u16)
        requires
            op_family(opcode) == 1,
        ensures
            execute(old(self)@, opcode, 0) == Ok::<Chip8Model, Chip8Error>(final(self)@),
    {
        self.pc = opcode % 4096;
    }

    /// Call: the return address goes on the stack.
    fn handle_2xxx(&mut self, opcode: u16)
        requires
            op_family(opcode) == 2,
        ensures
            execute(old(self)@, opcode, 0) == Ok::<Chip8Model, Chip8Error>(final(self)@),
    {
        self.stack.push(self.pc);
        self.pc = opcode % 4096;
    }

    /// Skip if a register equals an immediate.
    fn handle_3xxx(&mut self, opcode: u16)
        requires
            op_family(opcode) == 3,
            old(self).pc <= 0xFFFD,
        ensures
            execute(old(self)@, opcode, 0) == Ok::<Chip8Model, Chip8Error>(final(self)@),
    {
        let x = ((opcode / 256) % 16) as usize;
        let nn = (opcode % 256) as u8;
        if self.registers[x] == nn {
            self.pc = self.pc + 2;
        }
    }

    /// Skip if a register differs from an immediate.
    fn handle_4xxx(&mut self, opcode: u16)
        requires
            op_family(opcode) == 4,
            old(self).pc <= 0xFFFD,
        ensures
            execute(old(self)@, opcode, 0) == Ok::<Chip8Model, Chip8Error>(final(self)@),
    {
        let x = ((opcode / 256) % 16) as usize;
        let nn = (opcode % 256) as u8;
        if self.registers[x] != nn {
            self.pc = self.pc + 2;
        }
    }

    /// Skip if two registers are equal.
    fn handle_5xxx(&mut self, opcode: u16)
        requires
            op_family(opcode) == 5,
            old(self).pc <= 0xFFFD,
        ensures
            execute(old(self)@, opcode, 0) == Ok::<Chip8Model, Chip8Error>(final(self)@),
    {
        let x = ((opcode / 256) % 16) as usize;
        let y = ((opcode / 16) % 16) as usize;
        if self.registers[x] == self.registers[y] {
            self.pc = self.pc + 2;
        }
    }

    /// Load an immediate into a register.
    fn handle_6xxx(&mut self, opcode: u16)
        requires
            op_family(opcode) == 6,
        ensures
            execute(old(self)@, opcode, 0) == Ok::<Chip8Model, Chip8Error>(final(self)@),
    {
        let x = ((opcode / 256) % 16) as usize;
        let nn = (opcode % 256) as u8;
        self.registers[x] = nn;
    }

    /// Add an immediate to a register, wrapping, with no flag.
    fn handle_7xxx(&mut self, opcode: u16)
        requires
            op_family(opcode) == 7,
        ensures
            execute(old(self)@, opcode, 0) == Ok::<Chip8Model, Chip8Error>(final(self)@),
    {
        let x = ((opcode / 256) % 16) as usize;
        let nn = (opcode % 256) as u8;
        self.registers[x] = self.registers[x].wrapping_add(nn);
    }

    /// Register-register arithmetic and logic; the shifts, add and subtracts set
    /// the flag register.
    #[verifier::rlimit(40)]
    fn handle_8xxx(&mut self, opcode: u16) -> (r: Result<(), Chip8Error>)
        requires
            op_family(opcode) == 8,
        ensures
            outcome(r, old(self)@, final(self)@, exec_alu(old(self)@, opcode)),
    {
        let x = ((opcode / 256) % 16) as usize;
        let y = ((opcode / 16) % 16) as usize;
        let vx = self.registers[x];
        let vy = self.registers[y];
        match opcode % 16 {
            0x0 => {
                self.registers[x] = vy;
            },
            0x1 => {
                self.registers[x] = vx | vy;
            },
            0x2 => {
                self.registers[x] = vx & vy;
            },
            0x3 => {
                self.registers[x] = vx ^ vy;
            },
            0x4 => {
                self.registers[x] = vx.wrapping_add(vy);
                self.registers[15] = if vx as u16 + vy as u16 > 255 {
                    1
                } else {
                    0
                };
            },
            0x5 => {
                self.registers[x] = vx.wrapping_sub(vy);
                self.registers[15] = if vx > vy {
                    1
                } else {
                    0
                };
            },
            0x6 => {
                self.registers[x] = vx / 2;
                self.registers[15] = vx % 2;
            },
            0x7 => {
                self.registers[x] = vy.wrapping_sub(vx);
                self.registers[15] = if vy < vx {
                    0
                } else {
                    1
                };
            },
            0xE => {
                self.registers[x] = ((vx as u16 * 2) % 256) as u8;
                self.registers[15] = vx / 128;
            },
            _ => {
                return Err(Chip8Error::UnknownOpcode(opcode));
            },
        }
        Ok(())
    }

    /// Skip if two registers differ.
    fn handle_9xxx(&mut self, opcode: u16)
        requires
            op_family(opcode) == 9,
            old(self).pc <= 0xFFFD,
        ensures
            execute(old(self)@, opcode, 0) == Ok::<Chip8Model, Chip8Error>(final(self)@),
    {
        let x = ((opcode / 256) % 16) as usize;
        let y = ((opcode / 16) % 16) as usize;
        if self.registers[x] != self.registers[y] {
            self.pc = self.pc + 2;
        }
    }

    /// Set the index register.
    #[allow(non_snake_case)]
    fn handle_Axxx(&mut self, opcode: u16)
        requires
            op_family(opcode) == 0xA,
        ensures
            execute(old(self)@, opcode, 0) == Ok::<Chip8Model, Chip8Error>(final(self)@),
    {
        self.i_register = opcode % 4096;
    }

    /// Jump to register 0 plus an offset.
    #[allow(non_snake_case)]
    fn handle_Bxxx(&mut self, opcode: u16)
        requires
            op_family(opcode) == 0xB,
        ensures
            execute(old(self)@, opcode, 0) == Ok::<Chip8Model, Chip8Error>(final(self)@),
    {
        self.pc = self.registers[0] as u16 + opcode % 4096;
    }

    /// A random byte, masked by an immediate, into a register.
    #[allow(non_snake_case)]
    fn handle_Cxxx(&mut self, opcode: u16, rnd: u8)
        requires
            op_family(opcode) == 0xC,
        ensures
            execute(old(self)@, opcode, rnd) == Ok::<Chip8Model, Chip8Error>(final(self)@),
    {
        let x = ((opcode / 256) % 16) as usize;
        let nn = (opcode % 256) as u8;
        self.registers[x] = rnd & nn;
    }

    /// Skip if the key named by a register is, or is not, pressed.
    #[allow(non_snake_case)]
    fn handle_Exxx(&mut self, opcode: u16) -> (r: Result<(), Chip8Error>)
        requires
            op_family(opcode) == 0xE,
            old(self).pc <= 0xFFFD,
        ensures
            outcome(r, old(self)@, final(self)@, execute(old(self)@, opcode, 0)),
    {
        let x = ((opcode / 256) % 16) as usize;
        let key = self.registers[x] as usize;
        let nn = opcode % 256;
        if nn != 0x9E && nn != 0xA1 {
            return Err(Chip8Error::UnknownOpcode(opcode));
        }
        if key >= 16 {
            return Err(Chip8Error::OutOfBounds);
        }
        if nn == 0x9E {
            if self.keys[key] {
                self.pc = self.pc + 2;
            }
        } else {
            if !self.keys[key] {
                self.pc = self.pc + 2;
            }
        }
        Ok(())
    }

    /// Timers, key wait, index arithmetic, BCD and register block transfers.
    #[allow(non_snake_case)]
    fn handle_Fxxx(&mut self, opcode: u16) -> (r: Result<(), Chip8Error>)
        requires
            op_family(opcode) == 0xF,
        ensures
            outcome(r, old(self)@, final(self)@, execute(old(self)@, opcode, 0)),
    {
        let x = ((opcode / 256) % 16) as usize;
        let vx = self.registers[x];
        let i = self.i_register as usize;
        let nn = opcode % 256;
        if nn == 0x07 {
            self.registers[x] = self.delay_timer;
        } else if nn == 0x0A {
            let mut k: usize = 0;
            while k < 16 && !self.keys[k]
                invariant
                    0 <= k <= 16,
                    lowest_pressed(self.keys@, 0) == lowest_pressed(self.keys@, k as int),
                decreases 16 - k,
            {
                k = k + 1;
            }
            if k < 16 {
                self.registers[x] = k as u8;
                self.waiting_key_opcode = 0;
            } else {
                self.waiting_key_opcode = opcode;
            }
        } else if nn == 0x15 {
            self.delay_timer = vx;
        } else if nn == 0x18 {
            self.sound_timer = vx;
        } else if nn == 0x1E {
            self.i_register = self.i_register.wrapping_add(vx as u16);
        } else if nn == 0x29 {
            self.i_register = (vx % 16) as u16 * FONT_GLYPH_SIZE;
        } else if nn == 0x33 {
            if i + 3 > MEMORY_SIZE {
                return Err(Chip8Error::OutOfBounds);
            }
            self.memory[i] = vx / 100;
            self.memory[i + 1] = (vx / 10) % 10;
            self.memory[i + 2] = vx % 10;
        } else if nn == 0x55 {
            if i + x + 1 > MEMORY_SIZE {
                return Err(Chip8Error::OutOfBounds);
            }
            let mut j: usize = 0;
            while j <= x
                invariant
                    x < 16,
                    i + x + 1 <= 4096,
                    0 <= j <= x + 1,
                    self@ == (Chip8Model { memory: self@.memory, ..old(self)@ }),
                    forall|a: int|
                        0 <= a < 4096 ==> #[trigger] self.memory@[a] == if i <= a < i + j {
                            self.registers@[a - i]
                        } else {
                            old(self).memory@[a]
                        },
                decreases x + 1 - j,
            {
                self.memory[i + j] = self.registers[j];
                j = j + 1;
            }
            proof {
                let expected = execute(old(self)@, opcode, 0)->Ok_0;
                assert(self@.memory =~= expected.memory);
            }
        } else if nn == 0x65 {
            if i + x + 1 > MEMORY_SIZE {
                return Err(Chip8Error::OutOfBounds);
            }
            let mut j: usize = 0;
            while j <= x
                invariant
                    x < 16,
                    i + x + 1 <= 4096,
                    0 <= j <= x + 1,
                    self@ == (Chip8Model { registers: self@.registers, ..old(self)@ }),
                    forall|k: int|
                        0 <= k < 16 ==> #[trigger] self.registers@[k] == if k < j {
                            self.memory@[i + k]
                        } else {
                            old(self).registers@[k]
                        },
                decreases x + 1 - j,
            {
                self.registers[j] = self.memory[i + j];
                j = j + 1;
            }
            proof {
                let expected = execute(old(self)@, opcode, 0)->Ok_0;
                assert(self@.registers =~= expected.registers);
            }
        } else {
            return Err(Chip8Error::UnknownOpcode(opcode));
        }
        Ok(())
    }

    /// Draw sprite: XOR the sprite's rows onto the display, wrapping at the
    /// edges; the flag register says whether a lit pixel went dark.
    #[verifier::rlimit(50)]
    #[allow(non_snake_case)]
    fn handle_Dxxx(&mut self, opcode: u16) -> (r: Result<(), Chip8Error>)
        requires
            op_family(opcode) == 0xD,
        ensures
            outcome(r, old(self)@, final(self)@, execute(old(self)@, opcode, 0)),
    {
        let vx = self.registers[((opcode / 256) % 16) as usize];
        let vy = self.registers[((opcode / 16) % 16) as usize];
        let n = (opcode % 16) as usize;
        let x0 = (vx as usize) % DISPLAY_WIDTH;
        let y0 = (vy as usize) % DISPLAY_HEIGHT;
        let base = self.i_register as usize;
        if base + n > MEMORY_SIZE {
            return Err(Chip8Error::OutOfBounds);
        }
        let ghost old_disp = old(self)@.display;
        let ghost mem = self@.memory;
        let ghost (gb, gn, gx, gy) = (base as int, n as int, x0 as int, y0 as int);
        let mut collided: bool = false;
        let mut row: usize = 0;
        proof {
            lemma_xor_zero();
            assert forall|dy: int, dx: int| 0 <= dy < 32 && 0 <= dx < 64 implies #[trigger] self.display@[dy]@[dx]
                == old_disp[dy][dx] ^ partial_mask(mem, gb, gn, gx, gy, dy, dx, 0, 0) by {
                assert(old_disp[dy] == self.display@[dy]@);
            }
        }
        while row < n
            invariant
                n < 16,
                x0 < 64,
                y0 < 32,
                base + n <= 4096,
                0 <= row <= n,
                mem == old(self)@.memory,
                old_disp == old(self)@.display,
                gb == base && gn == n && gx == x0 && gy == y0,
                self@ == (Chip8Model { display: self@.display, ..old(self)@ }),
                forall|dy: int, dx: int|
                    0 <= dy < 32 && 0 <= dx < 64 ==> #[trigger] self.display@[dy]@[dx]
                        == old_disp[dy][dx] ^ partial_mask(mem, gb, gn, gx, gy, dy, dx, row as int, 0),
                collided == partial_collides(old_disp, mem, gb, gn, gx, gy, row as int, 0),
            decreases n - row,
        {
            let sprite = self.memory[base + row];
            let disp_y = (y0 + row) % DISPLAY_HEIGHT;
            let mut line = self.display[disp_y];
            let mut col: usize = 0;
            while col < 8
                invariant
                    n < 16,
                    x0 < 64,
                    y0 < 32,
                    base + n <= 4096,
                    0 <= row < n,
                    0 <= col <= 8,
                    disp_y == (y0 + row) % 32,
                    sprite == mem[base + row],
                    mem == old(self)@.memory,
                    old_disp == old(self)@.display,
                    gb == base && gn == n && gx == x0 && gy == y0,
                    self@ == (Chip8Model { display: self@.display, ..old(self)@ }),
                    forall|dy: int, dx: int|
                        0 <= dy < 32 && dy != disp_y && 0 <= dx < 64 ==> #[trigger] self.display@[dy]@[dx]
                            == old_disp[dy][dx] ^ partial_mask(mem, gb, gn, gx, gy, dy, dx, row as int, col as int),
                    forall|dx: int|
                        0 <= dx < 64 ==> #[trigger] line@[dx]
                            == old_disp[disp_y as int][dx] ^ partial_mask(mem, gb, gn, gx, gy, disp_y as int, dx, row as int, col as int),
                    collided == partial_collides(old_disp, mem, gb, gn, gx, gy, row as int, col as int),
                decreases 8 - col,
            {
                let shift = (7 - col) as u8;
                let pixel = (sprite >> shift) & 1;
                let disp_x = (x0 + col) % DISPLAY_WIDTH;
                let cur = line[disp_x];
                proof {
                    lemma_xor_zero();
                    lemma_partial_step(old_disp, mem, gb, gn, gx, gy, row as int, col as int);
                    assert(partial_mask(mem, gb, gn, gx, gy, disp_y as int, disp_x as int, row as int, col as int + 1) == pixel);
                    if cur > 0 && pixel > 0 {
                        assert(old_disp[disp_y as int][disp_x as int] == cur);
                    }
                }
                if cur > 0 && pixel > 0 {
                    collided = true;
                }
                line[disp_x] = cur ^ pixel;
                col = col + 1;
            }
            self.display[disp_y] = line;
            proof {
                lemma_partial_row_end(old_disp, mem, gb, gn, gx, gy, row as int);
            }
            row = row + 1;
        }
        self.registers[15] = if collided {
            1
        } else {
            0
        };
        proof {
            lemma_partial_all(old_disp, mem, gb, gn, gx, gy);
            let expected = execute(old(self)@, opcode, 0)->Ok_0;
            assert(self@.registers =~= expected.registers);
            assert forall|dy: int| 0 <= dy < 32 implies #[trigger] self@.display[dy] =~= expected.display[dy] by {
                assert forall|dx: int| 0 <= dx < 64 implies self@.display[dy][dx] == expected.display[dy][dx] by {
                    assert(self.display@[dy]@[dx] == old_disp[dy][dx] ^ partial_mask(mem, gb, gn, gx, gy, dy, dx, n as int, 0));
                }
            }
            assert(self@.display =~= expected.display);
        }
        Ok(())
    }

    /// One instruction cycle, with `rnd` as the byte that the random
    /// instruction draws.
    pub fn execute_opcode_with(&mut self, rnd: u8) -> (r: Result<(), Chip8Error>)
        ensures
            cycle_outcome(r, old(self)@, final(self)@, rnd),
    {
        let opcode = match self.get_opcode() {
            Ok(op) => op,
            Err(e) => {
                return Err(e);
            },
        };
        match opcode / 4096 {
            0x0 => self.handle_0xxx(opcode),
            0x1 => {
                self.handle_1xxx(opcode);
                Ok(())
            },
            0x2 => {
                self.handle_2xxx(opcode);
                Ok(())
            },
            0x3 => {
                self.handle_3xxx(opcode);
                Ok(())
            },
            0x4 => {
                self.handle_4xxx(opcode);
                Ok(())
            },
            0x5 => {
                self.handle_5xxx(opcode);
                Ok(())
            },
            0x6 => {
                self.handle_6xxx(opcode);
                Ok(())
            },
            0x7 => {
                self.handle_7xxx(opcode);
                Ok(())
            },
            0x8 => self.handle_8xxx(opcode),
            0x9 => {
                self.handle_9xxx(opcode);
                Ok(())
            },
            0xA => {
                self.handle_Axxx(opcode);
                Ok(())
            },
            0xB => {
                self.handle_Bxxx(opcode);
                Ok(())
            },
            0xC => {
                self.handle_Cxxx(opcode, rnd);
                Ok(())
            },
            0xD => self.handle_Dxxx(opcode),
            0xE => self.handle_Exxx(opcode),
            _ => self.handle_Fxxx(opcode),
        }
    }

    /// One instruction cycle: fetch, decode and execute. The random
    /// instruction draws its byte from the thread's generator; no other
    /// instruction draws one.
    pub fn execute_opcode(&mut self) -> (r: Result<(), Chip8Error>)
        ensures
            exists|rnd: u8| cycle_outcome(r, old(self)@, final(self)@, rnd),
    {
        let mut rnd: u8 = 0;
        if self.pc as usize + 1 < MEMORY_SIZE {
            let next = if self.waiting_key_opcode > 0 {
                self.waiting_key_opcode
            } else {
                self.get_current_opcode()
            };
            if next / 4096 == 0xC {
                rnd = rand::random::<u8>();
            }
        }
        self.execute_opcode_with(rnd)
    }
}

} // verus!
