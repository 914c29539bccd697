//! Properties of the abstract machine that hold across instructions and
//! across several steps.
use vstd::prelude::*;

use crate::error::Chip8Error;
use crate::model::{
    blank_display, draw_mask, execute, fetch, known_opcode, lowest_pressed, op_family, op_n,
    op_nn, op_nnn, op_x, op_y, sprite_bit, step, ticked, well_formed, word_at, Chip8Model,
};

verus! {

/// Decoding is total: every instruction word is handled by exactly one
/// family, and a word is reported as unknown exactly when it is no
/// instruction of the machine.
pub proof fn lemma_decode_total(m: Chip8Model, op: u16, rnd: u8)
    requires
        well_formed(m),
    ensures
        execute(m, op, rnd) == Err::<Chip8Model, Chip8Error>(Chip8Error::UnknownOpcode(op))
            <==> !known_opcode(op),
{
}

/// The flag-setting instructions of the register-register family, in the
/// machine's 8-bit terms: add with carry; subtract with borrow, whose flag
/// is 1 only when the minuend is the larger; the reverse subtract; and the
/// shifts of register x by one, the bit shifted out going to the flag.
/// Nothing but register x and the flag register changes. (Where x is the
/// flag register itself, the flag overwrites the result.)
pub proof fn lemma_alu_flags(m: Chip8Model, op: u16, rnd: u8)
    requires
        well_formed(m),
        op_family(op) == 8,
        op_x(op) != 15,
        op_n(op) == 4 || op_n(op) == 5 || op_n(op) == 6 || op_n(op) == 7 || op_n(op) == 0xE,
    ensures
        ({
            let x = op_x(op);
            let vx = m.registers[x];
            let vy = m.registers[op_y(op)];
            let r = execute(m, op, rnd)->Ok_0;
            &&& execute(m, op, rnd) is Ok
            &&& r == (Chip8Model { registers: r.registers, ..m })
            &&& r.registers.len() == 16
            &&& forall|k: int| 0 <= k < 15 && k != x ==> r.registers[k] == m.registers[k]
            &&& op_n(op) == 4 ==> r.registers[x] == (vx + vy) % 256 && r.registers[15] == (
            if vx + vy > 255 {
                1u8
            } else {
                0u8
            })
            &&& op_n(op) == 5 ==> r.registers[x] == (if vx >= vy {
                vx - vy
            } else {
                256 + vx - vy
            }) && r.registers[15] == (if vx > vy {
                1u8
            } else {
                0u8
            })
            &&& op_n(op) == 7 ==> r.registers[x] == (if vy >= vx {
                vy - vx
            } else {
                256 + vy - vx
            }) && r.registers[15] == (if vy >= vx {
                1u8
            } else {
                0u8
            })
            &&& op_n(op) == 6 ==> r.registers[x] == (vx >> 1u8) && r.registers[15] == (vx & 1u8)
            &&& op_n(op) == 0xE ==> r.registers[x] == ((vx << 1u8) as u8) && r.registers[15] == (vx
                >> 7u8)
        }),
{
    let vx = m.registers[op_x(op)];
    assert(vx / 2 == vx >> 1u8) by (bit_vector);
    assert(vx % 2 == vx & 1u8) by (bit_vector);
    assert((vx * 2) % 256 == ((vx << 1u8) as u8)) by (bit_vector);
    assert(vx / 128 == vx >> 7u8) by (bit_vector);
}

/// `n` ticks of the timer clock.
pub open spec fn ticked_n(m: Chip8Model, k: nat) -> Chip8Model
    decreases k,
{
    if k == 0 {
        m
    } else {
        ticked(ticked_n(m, (k - 1) as nat))
    }
}

/// The timers count down by one per tick and stay at zero once there.
pub proof fn lemma_timer_floor(m: Chip8Model, k: nat)
    ensures
        ticked_n(m, k).delay_timer as int == if m.delay_timer >= k {
            m.delay_timer - k
        } else {
            0
        },
        ticked_n(m, k).sound_timer as int == if m.sound_timer >= k {
            m.sound_timer - k
        } else {
            0
        },
    decreases k,
{
    if k > 0 {
        lemma_timer_floor(m, (k - 1) as nat);
    }
}

/// A row byte that is not zero has a set bit.
proof fn lemma_nonzero_has_bit(b: u8)
    requires
        b != 0,
    ensures
        exists|c: int| 0 <= c < 8 && #[trigger] sprite_bit(b, c) > 0,
{
    assert(sprite_bit(b, 0) > 0 || sprite_bit(b, 1) > 0 || sprite_bit(b, 2) > 0 || sprite_bit(b, 3)
        > 0 || sprite_bit(b, 4) > 0 || sprite_bit(b, 5) > 0 || sprite_bit(b, 6) > 0 || sprite_bit(
        b,
        7,
    ) > 0) by (bit_vector)
        requires
            b != 0,
    ;
}

proof fn lemma_xor_twice()
    ensures
        forall|a: u8, k: u8| #[trigger] ((a ^ k) ^ k) == a,
        forall|k: u8| #[trigger] (0u8 ^ k) == k,
{
    assert forall|a: u8, k: u8| #[trigger] ((a ^ k) ^ k) == a by {
        assert((a ^ k) ^ k == a) by (bit_vector);
    }
    assert forall|k: u8| #[trigger] (0u8 ^ k) == k by {
        assert(0u8 ^ k == k) by (bit_vector);
    }
}

/// Some row of the sprite of `n` rows at `base` has a pixel set.
pub open spec fn sprite_visible(mem: Seq<u8>, base: int, n: int) -> bool {
    exists|r: int| 0 <= r < n && #[trigger] mem[base + r] != 0
}

/// Drawing the same sprite twice at the same place leaves the display as it
/// was. On a blank display the first draw reports no collision, and the
/// second reports one exactly when the sprite has a pixel set. (The flag
/// register must not be a coordinate operand, as the first draw writes it.)
pub proof fn lemma_draw_twice(m: Chip8Model, op: u16, rnd: u8)
    requires
        well_formed(m),
        op_family(op) == 0xD,
        op_x(op) != 15,
        op_y(op) != 15,
        m.i_register + op_n(op) <= 4096,
    ensures
        execute(m, op, rnd) is Ok,
        execute(execute(m, op, rnd)->Ok_0, op, rnd) is Ok,
        execute(execute(m, op, rnd)->Ok_0, op, rnd)->Ok_0.display == m.display,
        m.display == blank_display() ==> execute(m, op, rnd)->Ok_0.registers[15] == 0,
        m.display == blank_display() ==> (execute(execute(m, op, rnd)->Ok_0, op, rnd)->Ok_0.registers[15]
            == 1 <==> sprite_visible(m.memory, m.i_register as int, op_n(op))),
{
    let m1 = execute(m, op, rnd)->Ok_0;
    let m2 = execute(m1, op, rnd)->Ok_0;
    let base = m.i_register as int;
    let n = op_n(op);
    let x0 = m.registers[op_x(op)] as int % 64;
    let y0 = m.registers[op_y(op)] as int % 32;
    lemma_xor_twice();
    assert(m1.registers[op_x(op)] == m.registers[op_x(op)]);
    assert(m1.registers[op_y(op)] == m.registers[op_y(op)]);
    assert forall|dy: int| 0 <= dy < 32 implies #[trigger] m2.display[dy] =~= m.display[dy] by {
        assert forall|dx: int| 0 <= dx < 64 implies m2.display[dy][dx] == m.display[dy][dx] by {
            let k = draw_mask(m.memory, base, n, x0, y0, dy, dx);
            assert(m1.display[dy][dx] == m.display[dy][dx] ^ k);
            assert(m2.display[dy][dx] == (m.display[dy][dx] ^ k) ^ k);
        }
    }
    assert(m2.display =~= m.display);
    if m.display == blank_display() {
        if sprite_visible(m.memory, base, n) {
            let r = choose|r: int| 0 <= r < n && #[trigger] m.memory[base + r] != 0;
            lemma_nonzero_has_bit(m.memory[base + r]);
            let c = choose|c: int| 0 <= c < 8 && #[trigger] sprite_bit(m.memory[base + r], c) > 0;
            let dy = (y0 + r) % 32;
            let dx = (x0 + c) % 64;
            assert(draw_mask(m.memory, base, n, x0, y0, dy, dx) > 0);
            assert(m1.display[dy][dx] == 0u8 ^ draw_mask(m.memory, base, n, x0, y0, dy, dx));
            assert(m1.display[dy][dx] > 0);
        }
        if m2.registers[15] == 1 {
            let (dy, dx) = choose|dy: int, dx: int|
                0 <= dy < 32 && 0 <= dx < 64 && m1.display[dy][dx] > 0 && #[trigger] draw_mask(
                    m.memory,
                    base,
                    n,
                    x0,
                    y0,
                    dy,
                    dx,
                ) > 0;
            let r = if dy >= y0 {
                dy - y0
            } else {
                dy + 32 - y0
            };
            assert(m.memory[base + r] != 0) by {
                let c = if dx >= x0 {
                    dx - x0
                } else {
                    dx + 64 - x0
                };
                assert(sprite_bit(m.memory[base + r], c) > 0);
                let s = (7 - c) as u8;
                assert((0u8 >> s) & 1u8 == 0u8) by (bit_vector);
            }
        }
    }
}

/// A key-wait instruction with no key down: the machine moves past it and
/// waits; every further step then leaves the whole state as it is.
pub proof fn lemma_key_wait_stalls(m: Chip8Model, rnd: u8)
    requires
        well_formed(m),
        m.waiting_key_opcode == 0,
        m.pc + 1 < 4096,
        op_family(word_at(m.memory, m.pc as int)) == 0xF,
        op_nn(word_at(m.memory, m.pc as int)) == 0x0A,
        lowest_pressed(m.keys, 0) == 16,
    ensures
        step(m, rnd) is Ok,
        step(m, rnd)->Ok_0.waiting_key_opcode == word_at(m.memory, m.pc as int),
        step(m, rnd)->Ok_0.pc == m.pc + 2,
        step(m, rnd)->Ok_0.pc + 1 < 4096 ==> step(step(m, rnd)->Ok_0, rnd) == Ok::<
            Chip8Model,
            Chip8Error,
        >(step(m, rnd)->Ok_0),
{
    let op = word_at(m.memory, m.pc as int);
    assert(op != 0);
}

proof fn lemma_lowest_pressed_range(keys: Seq<bool>, from: int)
    requires
        0 <= from <= 16,
    ensures
        from <= lowest_pressed(keys, from) <= 16,
    decreases 16 - from,
{
    if from < 16 {
        lemma_lowest_pressed_range(keys, from + 1);
    }
}

/// A waiting machine whose keypad has a key down stores the lowest such key
/// in the instruction's register, stops waiting and keeps its program
/// counter, so the next step fetches the instruction after the wait.
pub proof fn lemma_key_wait_resumes(m: Chip8Model, rnd: u8)
    requires
        well_formed(m),
        m.pc + 1 < 4096,
        op_family(m.waiting_key_opcode) == 0xF,
        op_nn(m.waiting_key_opcode) == 0x0A,
        lowest_pressed(m.keys, 0) < 16,
    ensures
        step(m, rnd) is Ok,
        step(m, rnd)->Ok_0.registers[op_x(m.waiting_key_opcode)] == lowest_pressed(m.keys, 0),
        step(m, rnd)->Ok_0.waiting_key_opcode == 0,
        step(m, rnd)->Ok_0.pc == m.pc,
        fetch(step(m, rnd)->Ok_0) == Ok::<(Chip8Model, u16), Chip8Error>(
            (
                Chip8Model { pc: (m.pc + 2) as u16, ..step(m, rnd)->Ok_0 },
                word_at(m.memory, m.pc as int),
            ),
        ),
{
    let op = m.waiting_key_opcode;
    assert(op != 0);
    assert(0 <= op_x(op) < 16);
    let k = lowest_pressed(m.keys, 0);
    lemma_lowest_pressed_range(m.keys, 0);
    assert(step(m, rnd) == Ok::<Chip8Model, Chip8Error>(
        Chip8Model { waiting_key_opcode: 0, registers: m.registers.update(op_x(op), k as u8), ..m },
    ));
}

/// A call followed by a return lands on the instruction after the call,
/// with the call stack as it was.
pub proof fn lemma_call_return(m: Chip8Model, rnd: u8)
    requires
        well_formed(m),
        m.waiting_key_opcode == 0,
        m.pc + 1 < 4096,
        op_family(word_at(m.memory, m.pc as int)) == 2,
        op_nnn(word_at(m.memory, m.pc as int)) + 1 < 4096,
        word_at(m.memory, op_nnn(word_at(m.memory, m.pc as int)) as int) == 0x00EE,
    ensures
        step(m, rnd) is Ok,
        step(step(m, rnd)->Ok_0, rnd) is Ok,
        step(step(m, rnd)->Ok_0, rnd)->Ok_0.pc == m.pc + 2,
        step(step(m, rnd)->Ok_0, rnd)->Ok_0.stack == m.stack,
{
    let m1 = step(m, rnd)->Ok_0;
    assert(m1.stack.drop_last() =~= m.stack);
}

} // verus!
