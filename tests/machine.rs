use chip8_core::chip8::Chip8;
use chip8_core::error::Chip8Error;

fn machine_with(program: &[u8]) -> Chip8 {
    let mut m = Chip8::default();
    m.load_rom(program, 0x200).unwrap();
    m
}

fn alu(vx: u8, vy: u8, low: u8) -> Chip8 {
    // 0x8XYn with X = 1, Y = 2
    let mut m = machine_with(&[0x81, 0x20 | low]);
    m.registers[1] = vx;
    m.registers[2] = vy;
    m.execute_opcode_with(0).unwrap();
    m
}

#[test]
fn default_state() {
    let m = Chip8::default();
    assert_eq!(m.pc, 0x200);
    assert!(m.memory.iter().all(|&b| b == 0));
    assert!(m.registers.iter().all(|&r| r == 0));
    assert!(m.stack.is_empty());
    assert_eq!(m.waiting_key_opcode, 0);
}

#[test]
fn add_with_carry_overflow() {
    let m = alu(0xFF, 0x01, 0x4);
    assert_eq!(m.registers[1], 0x00);
    assert_eq!(m.registers[0xF], 1);
}

#[test]
fn add_with_carry_no_overflow() {
    let m = alu(0x01, 0x01, 0x4);
    assert_eq!(m.registers[1], 0x02);
    assert_eq!(m.registers[0xF], 0);
}

#[test]
fn subtract_with_borrow() {
    let m = alu(0x05, 0x0A, 0x5);
    assert_eq!(m.registers[1], 0xFB);
    assert_eq!(m.registers[0xF], 0);
    let m = alu(0x0A, 0x05, 0x5);
    assert_eq!(m.registers[1], 0x05);
    assert_eq!(m.registers[0xF], 1);
}

#[test]
fn subtract_equal_operands_flags_no_borrow_as_zero() {
    let m = alu(0x07, 0x07, 0x5);
    assert_eq!(m.registers[1], 0x00);
    assert_eq!(m.registers[0xF], 0);
}

#[test]
fn reverse_subtract() {
    let m = alu(0x0A, 0x05, 0x7);
    assert_eq!(m.registers[1], 0xFB);
    assert_eq!(m.registers[0xF], 0);
    let m = alu(0x05, 0x0A, 0x7);
    assert_eq!(m.registers[1], 0x05);
    assert_eq!(m.registers[0xF], 1);
}

#[test]
fn shifts() {
    let m = alu(0x03, 0x00, 0x6);
    assert_eq!(m.registers[1], 0x01);
    assert_eq!(m.registers[0xF], 1);
    let m = alu(0x81, 0x00, 0xE);
    assert_eq!(m.registers[1], 0x02);
    assert_eq!(m.registers[0xF], 1);
    let m = alu(0x40, 0x00, 0xE);
    assert_eq!(m.registers[1], 0x80);
    assert_eq!(m.registers[0xF], 0);
}

#[test]
fn logic_ops() {
    assert_eq!(alu(0x0C, 0x0A, 0x0).registers[1], 0x0A);
    assert_eq!(alu(0x0C, 0x0A, 0x1).registers[1], 0x0E);
    assert_eq!(alu(0x0C, 0x0A, 0x2).registers[1], 0x08);
    assert_eq!(alu(0x0C, 0x0A, 0x3).registers[1], 0x06);
}

#[test]
fn unknown_alu_opcode() {
    let mut m = machine_with(&[0x81, 0x28]);
    assert_eq!(m.execute_opcode_with(0), Err(Chip8Error::UnknownOpcode(0x8128)));
}

#[test]
fn unknown_system_opcode() {
    let mut m = machine_with(&[0x01, 0x23]);
    assert_eq!(m.execute_opcode_with(0), Err(Chip8Error::UnknownOpcode(0x0123)));
}

#[test]
fn unknown_key_and_misc_opcodes() {
    let mut m = machine_with(&[0xE1, 0x00]);
    assert_eq!(m.execute_opcode_with(0), Err(Chip8Error::UnknownOpcode(0xE100)));
    let mut m = machine_with(&[0xF1, 0x99]);
    assert_eq!(m.execute_opcode_with(0), Err(Chip8Error::UnknownOpcode(0xF199)));
}

#[test]
fn draw_twice_collides_and_clears() {
    // I = 0x300, draw 1 row at (V0, V1) twice
    let mut m = machine_with(&[0xA3, 0x00, 0xD0, 0x11, 0xD0, 0x11]);
    m.memory[0x300] = 0xF0;
    m.registers[0] = 10;
    m.registers[1] = 5;
    m.execute_opcode_with(0).unwrap();
    m.execute_opcode_with(0).unwrap();
    assert_eq!(m.registers[0xF], 0);
    assert_eq!(&m.display[5][10..14], &[1, 1, 1, 1]);
    assert_eq!(m.display[5][14], 0);
    m.execute_opcode_with(0).unwrap();
    assert_eq!(m.registers[0xF], 1);
    assert!(m.display.iter().all(|row| row.iter().all(|&p| p == 0)));
}

#[test]
fn draw_wraps_horizontally() {
    let mut m = machine_with(&[0xA3, 0x00, 0xD0, 0x11]);
    m.memory[0x300] = 0xC0;
    m.registers[0] = 63;
    m.registers[1] = 0;
    m.execute_opcode_with(0).unwrap();
    m.execute_opcode_with(0).unwrap();
    assert_eq!(m.display[0][63], 1);
    assert_eq!(m.display[0][0], 1);
    assert_eq!(m.display[0][1], 0);
}

#[test]
fn draw_wraps_vertically() {
    let mut m = machine_with(&[0xA3, 0x00, 0xD0, 0x12]);
    m.memory[0x300] = 0x80;
    m.memory[0x301] = 0x80;
    m.registers[0] = 0;
    m.registers[1] = 31;
    m.execute_opcode_with(0).unwrap();
    m.execute_opcode_with(0).unwrap();
    assert_eq!(m.display[31][0], 1);
    assert_eq!(m.display[0][0], 1);
    assert_eq!(m.display[1][0], 0);
}

#[test]
fn draw_coordinates_taken_modulo_screen() {
    let mut m = machine_with(&[0xA3, 0x00, 0xD0, 0x11]);
    m.memory[0x300] = 0x80;
    m.registers[0] = 64 + 3;
    m.registers[1] = 32 + 2;
    m.execute_opcode_with(0).unwrap();
    m.execute_opcode_with(0).unwrap();
    assert_eq!(m.display[2][3], 1);
}

#[test]
fn draw_beyond_memory_is_out_of_bounds() {
    let mut m = machine_with(&[0xAF, 0xFF, 0xD0, 0x12]);
    m.execute_opcode_with(0).unwrap();
    assert_eq!(m.execute_opcode_with(0), Err(Chip8Error::OutOfBounds));
}

#[test]
fn get_key_waits_then_resumes() {
    let mut m = machine_with(&[0xF3, 0x0A, 0x60, 0x07]);
    m.execute_opcode_with(0).unwrap();
    assert_eq!(m.waiting_key_opcode, 0xF30A);
    assert_eq!(m.pc, 0x202);
    m.execute_opcode_with(0).unwrap();
    m.execute_opcode_with(0).unwrap();
    assert_eq!(m.pc, 0x202);
    assert_eq!(m.waiting_key_opcode, 0xF30A);
    m.keys[0xB] = true;
    m.keys[0x5] = true;
    m.execute_opcode_with(0).unwrap();
    assert_eq!(m.registers[3], 0x5);
    assert_eq!(m.waiting_key_opcode, 0);
    assert_eq!(m.pc, 0x202);
    m.execute_opcode_with(0).unwrap();
    assert_eq!(m.registers[0], 7);
    assert_eq!(m.pc, 0x204);
}

#[test]
fn timers_floor_at_zero() {
    let mut m = Chip8::default();
    m.delay_timer = 2;
    m.sound_timer = 1;
    m.update_timers();
    assert_eq!((m.delay_timer, m.sound_timer), (1, 0));
    for _ in 0..5 {
        m.update_timers();
    }
    assert_eq!((m.delay_timer, m.sound_timer), (0, 0));
}

#[test]
fn load_then_step_sets_register() {
    let mut m = machine_with(&[0x60, 0x05]);
    m.execute_opcode_with(0).unwrap();
    assert_eq!(m.registers[0], 5);
    assert_eq!(m.pc, 0x202);
}

#[test]
fn call_then_return() {
    let mut m = machine_with(&[0x23, 0x00]);
    m.memory[0x300] = 0x00;
    m.memory[0x301] = 0xEE;
    m.execute_opcode_with(0).unwrap();
    assert_eq!(m.pc, 0x300);
    assert_eq!(m.stack, vec![0x202]);
    m.execute_opcode_with(0).unwrap();
    assert_eq!(m.pc, 0x202);
    assert!(m.stack.is_empty());
}

#[test]
fn return_with_empty_stack_underflows() {
    let mut m = machine_with(&[0x00, 0xEE]);
    assert_eq!(m.execute_opcode_with(0), Err(Chip8Error::StackUnderflow));
}

#[test]
fn fetch_past_memory_is_out_of_bounds() {
    let mut m = Chip8::default();
    m.pc = 0xFFF;
    assert_eq!(m.execute_opcode_with(0), Err(Chip8Error::OutOfBounds));
}

#[test]
fn load_too_large_is_refused_and_keeps_state() {
    let mut m = machine_with(&[0x12, 0x34]);
    m.registers[4] = 9;
    let big = vec![0xAAu8; 4096 - 0x200 + 1];
    assert_eq!(m.load_rom(&big, 0x200), Err(Chip8Error::Capacity));
    assert_eq!(m.registers[4], 9);
    assert_eq!(m.memory[0x200], 0x12);
    let exact = vec![0xAAu8; 4096 - 0x200];
    assert_eq!(m.load_rom(&exact, 0x200), Ok(()));
    assert_eq!(m.memory[0xFFF], 0xAA);
    assert_eq!(m.registers[4], 0);
}

#[test]
fn jumps_and_skips() {
    let mut m = machine_with(&[0x12, 0x08]);
    m.execute_opcode_with(0).unwrap();
    assert_eq!(m.pc, 0x208);

    let mut m = machine_with(&[0x31, 0x07, 0x41, 0x07, 0x51, 0x20, 0x91, 0x20]);
    m.registers[1] = 7;
    m.registers[2] = 7;
    m.execute_opcode_with(0).unwrap();
    assert_eq!(m.pc, 0x204);
    m.pc = 0x202;
    m.execute_opcode_with(0).unwrap();
    assert_eq!(m.pc, 0x204);
    m.execute_opcode_with(0).unwrap();
    assert_eq!(m.pc, 0x208);
    m.pc = 0x206;
    m.execute_opcode_with(0).unwrap();
    assert_eq!(m.pc, 0x208);

    let mut m = machine_with(&[0xB3, 0x00]);
    m.registers[0] = 0x10;
    m.execute_opcode_with(0).unwrap();
    assert_eq!(m.pc, 0x310);
}

#[test]
fn add_immediate_wraps_without_flag() {
    let mut m = machine_with(&[0x72, 0x02]);
    m.registers[2] = 0xFF;
    m.execute_opcode_with(0).unwrap();
    assert_eq!(m.registers[2], 0x01);
    assert_eq!(m.registers[0xF], 0);
}

#[test]
fn random_masks_the_drawn_byte() {
    let mut m = machine_with(&[0xC4, 0x0F]);
    m.execute_opcode_with(0xAB).unwrap();
    assert_eq!(m.registers[4], 0x0B);
    let mut m = machine_with(&[0xC4, 0x00]);
    m.registers[4] = 9;
    m.execute_opcode().unwrap();
    assert_eq!(m.registers[4], 0);
}

#[test]
fn key_skips() {
    let mut m = machine_with(&[0xE1, 0x9E, 0xE1, 0xA1]);
    m.registers[1] = 0xA;
    m.keys[0xA] = true;
    m.execute_opcode_with(0).unwrap();
    assert_eq!(m.pc, 0x204);
    m.pc = 0x202;
    m.execute_opcode_with(0).unwrap();
    assert_eq!(m.pc, 0x204);
    let mut m = machine_with(&[0xE1, 0x9E]);
    m.registers[1] = 16;
    assert_eq!(m.execute_opcode_with(0), Err(Chip8Error::OutOfBounds));
}

#[test]
fn timers_index_and_font() {
    let mut m = machine_with(&[0xF1, 0x15, 0xF2, 0x18, 0xF3, 0x07, 0xF1, 0x1E, 0xF4, 0x29]);
    m.registers[1] = 30;
    m.registers[2] = 40;
    m.registers[4] = 0xE;
    m.i_register = 0x100;
    for _ in 0..5 {
        m.execute_opcode_with(0).unwrap();
    }
    assert_eq!(m.delay_timer, 30);
    assert_eq!(m.sound_timer, 40);
    assert_eq!(m.registers[3], 30);
    assert_eq!(m.i_register, 0xE * 5);
}

#[test]
fn add_to_index() {
    let mut m = machine_with(&[0xF1, 0x1E]);
    m.registers[1] = 30;
    m.i_register = 0x100;
    m.execute_opcode_with(0).unwrap();
    assert_eq!(m.i_register, 0x11E);
}

#[test]
fn bcd_and_register_transfers() {
    let mut m = machine_with(&[0xF0, 0x33, 0xF2, 0x55, 0xF2, 0x65]);
    m.registers[0] = 254;
    m.i_register = 0x400;
    m.execute_opcode_with(0).unwrap();
    assert_eq!(&m.memory[0x400..0x403], &[2, 5, 4]);
    m.registers[0] = 1;
    m.registers[1] = 2;
    m.registers[2] = 3;
    m.registers[3] = 4;
    m.i_register = 0x500;
    m.execute_opcode_with(0).unwrap();
    assert_eq!(&m.memory[0x500..0x504], &[1, 2, 3, 0]);
    m.memory[0x500] = 9;
    m.memory[0x503] = 8;
    m.execute_opcode_with(0).unwrap();
    assert_eq!(&m.registers[0..4], &[9, 2, 3, 4]);
}

#[test]
fn reset_and_restart() {
    let mut m = machine_with(&[0x60, 0x05, 0x00, 0xE0]);
    m.execute_opcode_with(0).unwrap();
    m.stack.push(0x222);
    m.display[3][4] = 1;
    m.sound_timer = 3;
    m.restart();
    assert_eq!(m.pc, 0x200);
    assert_eq!(m.registers[0], 0);
    assert!(m.stack.is_empty());
    assert_eq!(m.display[3][4], 0);
    assert_eq!(m.sound_timer, 0);
    assert_eq!(m.memory[0x200], 0x60);
    m.reset();
    assert_eq!(m.memory[0x200], 0);
    assert_eq!(m.pc, 0x200);
}

#[test]
fn clear_screen_and_current_opcode() {
    let mut m = machine_with(&[0x00, 0xE0]);
    assert_eq!(m.get_current_opcode(), 0x00E0);
    m.display[10][20] = 1;
    m.execute_opcode_with(0).unwrap();
    assert_eq!(m.display[10][20], 0);
    assert_eq!(m.pc, 0x202);
}

#[test]
fn font_glyph_uses_low_nibble() {
    let mut m = machine_with(&[0xF0, 0x29, 0xF1, 0x29]);
    m.registers[0] = 0x10;
    m.registers[1] = 0x3F;
    m.execute_opcode_with(0).unwrap();
    assert_eq!(m.i_register, 0);
    m.execute_opcode_with(0).unwrap();
    assert_eq!(m.i_register, 0xF * 5);
}

#[test]
fn failed_instruction_keeps_fetched_state() {
    let mut m = machine_with(&[0xE1, 0x00]);
    m.keys[2] = true;
    m.registers[1] = 2;
    assert_eq!(m.execute_opcode_with(0), Err(Chip8Error::UnknownOpcode(0xE100)));
    assert_eq!(m.pc, 0x202);
    assert!(m.keys[2]);
    assert_eq!(m.memory[0x200], 0xE1);
}

#[test]
fn failed_fetch_keeps_program_counter() {
    let mut m = Chip8::default();
    m.pc = 0xFFF;
    m.display[0][0] = 1;
    assert_eq!(m.execute_opcode(), Err(Chip8Error::OutOfBounds));
    assert_eq!(m.pc, 0xFFF);
    assert_eq!(m.display[0][0], 1);
}
