use chip8::error::ChipError;
use chip8::op_code::OpCode;
use chip8::state::State;

fn exec(state: &mut State, b1: u8, b2: u8) -> Result<(), ChipError> {
    state.execute_op(OpCode::from_bytes(b1, b2))
}

fn reg(state: &State, r: u8) -> u8 {
    state.get_vx(&OpCode::from_bytes(r, 0))
}

fn set(state: &mut State, r: u8, value: u8) {
    exec(state, 0x60 | r, value).unwrap();
}

#[test]
fn new_state_has_fonts_and_start_address() {
    let state = State::new();
    assert_eq!(state.pc(), 0x200);
    assert_eq!(state.index_register(), 0);
    assert_eq!(state.memory_at(0x50), 0xF0);
    assert_eq!(state.memory_at(0x55), 0x20);
    assert_eq!(state.memory_at(0x9F), 0x80);
    assert_eq!(state.memory_at(0x4F), 0);
    assert_eq!(state.memory_at(0xA0), 0);
    assert!(state.get_frame_buffer().iter().all(|col| col.iter().all(|p| !*p)));
}

#[test]
fn load_rom_and_fetch() {
    let mut state = State::new();
    state.load_rom(vec![0x12, 0x34, 0xAB]);
    assert_eq!(state.memory_at(0x200), 0x12);
    assert_eq!(state.memory_at(0x202), 0xAB);
    let op = state.next_op().unwrap();
    assert_eq!(op, OpCode::from_bytes(0x12, 0x34));
    assert_eq!(state.pc(), 0x202);
}

#[test]
fn fetch_past_end_of_memory_fails() {
    let mut state = State::new();
    exec(&mut state, 0x1F, 0xFF).unwrap();
    assert_eq!(state.pc(), 0xFFF);
    assert_eq!(state.next_op(), Err(ChipError::MemoryOutOfBounds));
    assert_eq!(state.pc(), 0xFFF);
}

#[test]
fn add_with_carry() {
    let mut state = State::new();
    set(&mut state, 1, 0xFF);
    set(&mut state, 2, 0x01);
    exec(&mut state, 0x81, 0x24).unwrap();
    assert_eq!(reg(&state, 1), 0x00);
    assert_eq!(reg(&state, 0xF), 1);

    set(&mut state, 1, 0x01);
    set(&mut state, 2, 0x01);
    exec(&mut state, 0x81, 0x24).unwrap();
    assert_eq!(reg(&state, 1), 0x02);
    assert_eq!(reg(&state, 0xF), 0);
}

#[test]
fn subtract_with_borrow() {
    let mut state = State::new();
    set(&mut state, 1, 0x05);
    set(&mut state, 2, 0x02);
    exec(&mut state, 0x81, 0x25).unwrap();
    assert_eq!(reg(&state, 1), 0x03);
    assert_eq!(reg(&state, 0xF), 1);

    set(&mut state, 1, 0x02);
    set(&mut state, 2, 0x05);
    exec(&mut state, 0x81, 0x25).unwrap();
    assert_eq!(reg(&state, 1), 0xFD);
    assert_eq!(reg(&state, 0xF), 0);
}

#[test]
fn reverse_subtract() {
    let mut state = State::new();
    set(&mut state, 1, 0x02);
    set(&mut state, 2, 0x05);
    exec(&mut state, 0x81, 0x27).unwrap();
    assert_eq!(reg(&state, 1), 0x03);
    assert_eq!(reg(&state, 0xF), 1);
}

#[test]
fn flag_overwrites_result_in_vf() {
    let mut state = State::new();
    set(&mut state, 0xF, 0xFF);
    set(&mut state, 1, 0x01);
    exec(&mut state, 0x8F, 0x14).unwrap();
    assert_eq!(reg(&state, 0xF), 1);
}

#[test]
fn logic_ops_and_immediates() {
    let mut state = State::new();
    set(&mut state, 1, 0b1100);
    set(&mut state, 2, 0b1010);
    exec(&mut state, 0x83, 0x11).unwrap();
    exec(&mut state, 0x83, 0x21).unwrap();
    assert_eq!(reg(&state, 3), 0b1110);
    exec(&mut state, 0x84, 0x10).unwrap();
    exec(&mut state, 0x84, 0x22).unwrap();
    assert_eq!(reg(&state, 4), 0b1000);
    exec(&mut state, 0x85, 0x10).unwrap();
    exec(&mut state, 0x85, 0x23).unwrap();
    assert_eq!(reg(&state, 5), 0b0110);
    set(&mut state, 6, 0xFE);
    exec(&mut state, 0x76, 0x05).unwrap();
    assert_eq!(reg(&state, 6), 0x03);
}

#[test]
fn shifts_use_vx_by_default() {
    let mut state = State::new();
    set(&mut state, 1, 0b1000_0001);
    set(&mut state, 2, 0b0000_0010);
    exec(&mut state, 0x81, 0x26).unwrap();
    assert_eq!(reg(&state, 1), 0b0100_0000);
    assert_eq!(reg(&state, 0xF), 1);
    set(&mut state, 1, 0b1000_0001);
    exec(&mut state, 0x81, 0x2E).unwrap();
    assert_eq!(reg(&state, 1), 0b0000_0010);
    assert_eq!(reg(&state, 0xF), 1);
}

#[test]
fn shifts_can_use_vy() {
    let mut state = State::new();
    state.set_shift_uses_vx(false);
    set(&mut state, 1, 0xFF);
    set(&mut state, 2, 0b0000_0010);
    exec(&mut state, 0x81, 0x26).unwrap();
    assert_eq!(reg(&state, 1), 0b0000_0001);
    assert_eq!(reg(&state, 0xF), 0);
    exec(&mut state, 0x81, 0x2E).unwrap();
    assert_eq!(reg(&state, 1), 0b0000_0100);
    assert_eq!(reg(&state, 0xF), 0);
}

#[test]
fn bcd_of_157() {
    let mut state = State::new();
    set(&mut state, 3, 157);
    exec(&mut state, 0xA3, 0x00).unwrap();
    exec(&mut state, 0xF3, 0x33).unwrap();
    assert_eq!(state.memory_at(0x300), 1);
    assert_eq!(state.memory_at(0x301), 5);
    assert_eq!(state.memory_at(0x302), 7);
}

#[test]
fn bcd_past_end_of_memory_fails() {
    let mut state = State::new();
    exec(&mut state, 0xAF, 0xFE).unwrap();
    assert_eq!(exec(&mut state, 0xF0, 0x33), Err(ChipError::MemoryOutOfBounds));
}

#[test]
fn dump_then_load_round_trip() {
    let mut state = State::new();
    for r in 0..=5u8 {
        set(&mut state, r, 10 + r * 7);
    }
    exec(&mut state, 0xA4, 0x00).unwrap();
    exec(&mut state, 0xF5, 0x55).unwrap();
    for r in 0..=5u8 {
        assert_eq!(state.memory_at(0x400 + r as usize), 10 + r * 7);
    }
    assert_eq!(state.memory_at(0x406), 0);

    let mut fresh = State::new();
    fresh.load_rom(vec![0; 0x200]);
    let mut image = vec![0u8; 0x206];
    for r in 0..=5usize {
        image[0x200 + r] = state.memory_at(0x400 + r);
    }
    fresh.load_rom(image);
    exec(&mut fresh, 0xA4, 0x00).unwrap();
    exec(&mut fresh, 0xF5, 0x65).unwrap();
    for r in 0..=5u8 {
        assert_eq!(reg(&fresh, r), 10 + r * 7);
    }
    assert_eq!(reg(&fresh, 6), 0);
}

#[test]
fn dump_past_end_of_memory_fails() {
    let mut state = State::new();
    exec(&mut state, 0xAF, 0xFC).unwrap();
    assert_eq!(exec(&mut state, 0xF4, 0x55), Err(ChipError::MemoryOutOfBounds));
    assert_eq!(exec(&mut state, 0xF3, 0x55), Ok(()));
    assert_eq!(exec(&mut state, 0xF4, 0x65), Err(ChipError::MemoryOutOfBounds));
}

#[test]
fn draw_twice_collides_and_clears() {
    let mut state = State::new();
    set(&mut state, 0, 10);
    set(&mut state, 1, 5);
    set(&mut state, 2, 2);
    exec(&mut state, 0xF2, 0x29).unwrap();
    assert_eq!(state.index_register(), 0x50 + 10);
    exec(&mut state, 0xD0, 0x15).unwrap();
    assert_eq!(reg(&state, 0xF), 0);
    // Glyph "2" starts with 0xF0: four pixels on in its first row.
    let fb = state.get_frame_buffer();
    assert!(fb[10][5] && fb[11][5] && fb[12][5] && fb[13][5]);
    assert!(!fb[14][5]);
    exec(&mut state, 0xD0, 0x15).unwrap();
    assert_eq!(reg(&state, 0xF), 1);
    assert!(state.get_frame_buffer().iter().all(|col| col.iter().all(|p| !*p)));
}

#[test]
fn draw_clips_at_right_edge() {
    let mut state = State::new();
    state.load_rom(vec![0xFF]);
    exec(&mut state, 0xA2, 0x00).unwrap();
    set(&mut state, 0, 60);
    set(&mut state, 1, 0);
    exec(&mut state, 0xD0, 0x11).unwrap();
    let fb = state.get_frame_buffer();
    for x in 0..64 {
        assert_eq!(fb[x][0], x >= 60, "column {}", x);
    }
}

#[test]
fn draw_clips_at_bottom_edge_and_wraps_origin() {
    let mut state = State::new();
    state.load_rom(vec![0x80, 0x80, 0x80]);
    exec(&mut state, 0xA2, 0x00).unwrap();
    set(&mut state, 0, 64 + 3);
    set(&mut state, 1, 32 + 30);
    exec(&mut state, 0xD0, 0x13).unwrap();
    let fb = state.get_frame_buffer();
    assert!(fb[3][30] && fb[3][31]);
    assert!(!fb[3][0]);
}

#[test]
fn draw_reports_collision_even_when_later_pixels_do_not_collide() {
    let mut state = State::new();
    state.load_rom(vec![0x80, 0xC0]);
    exec(&mut state, 0xA2, 0x00).unwrap();
    set(&mut state, 0, 0);
    set(&mut state, 1, 0);
    exec(&mut state, 0xD0, 0x11).unwrap();
    exec(&mut state, 0xA2, 0x01).unwrap();
    exec(&mut state, 0xD0, 0x11).unwrap();
    assert_eq!(reg(&state, 0xF), 1);
    let fb = state.get_frame_buffer();
    assert!(!fb[0][0] && fb[1][0]);
}

#[test]
fn draw_sprite_past_end_of_memory_fails() {
    let mut state = State::new();
    exec(&mut state, 0xAF, 0xFF).unwrap();
    assert_eq!(exec(&mut state, 0xD0, 0x02), Err(ChipError::MemoryOutOfBounds));
    assert_eq!(exec(&mut state, 0xD0, 0x01), Ok(()));
}

#[test]
fn clear_screen() {
    let mut state = State::new();
    exec(&mut state, 0xA0, 0x50).unwrap();
    exec(&mut state, 0xD0, 0x05).unwrap();
    assert!(state.get_frame_buffer().iter().any(|col| col.iter().any(|p| *p)));
    exec(&mut state, 0x00, 0xE0).unwrap();
    assert!(state.get_frame_buffer().iter().all(|col| col.iter().all(|p| !*p)));
}

#[test]
fn key_wait_blocks_until_pressed() {
    let mut state = State::new();
    state.load_rom(vec![0xF3, 0x0A]);
    for _ in 0..3 {
        let op = state.next_op().unwrap();
        state.execute_op(op).unwrap();
        assert_eq!(state.pc(), 0x200);
    }
    state.key_down(9);
    state.key_down(12);
    let op = state.next_op().unwrap();
    state.execute_op(op).unwrap();
    assert_eq!(reg(&state, 3), 9);
    assert_eq!(state.pc(), 0x202);
}

#[test]
fn skip_on_key() {
    let mut state = State::new();
    set(&mut state, 1, 4);
    exec(&mut state, 0xE1, 0x9E).unwrap();
    assert_eq!(state.pc(), 0x200);
    exec(&mut state, 0xE1, 0xA1).unwrap();
    assert_eq!(state.pc(), 0x202);
    state.key_down(4);
    exec(&mut state, 0xE1, 0x9E).unwrap();
    assert_eq!(state.pc(), 0x204);
    state.key_up(4);
    exec(&mut state, 0xE1, 0x9E).unwrap();
    assert_eq!(state.pc(), 0x204);
    set(&mut state, 1, 16);
    exec(&mut state, 0xE1, 0xA1).unwrap();
    assert_eq!(state.pc(), 0x204);
}

#[test]
fn conditional_skips() {
    let mut state = State::new();
    set(&mut state, 1, 7);
    set(&mut state, 2, 7);
    exec(&mut state, 0x31, 0x07).unwrap();
    assert_eq!(state.pc(), 0x202);
    exec(&mut state, 0x41, 0x07).unwrap();
    assert_eq!(state.pc(), 0x202);
    exec(&mut state, 0x51, 0x20).unwrap();
    assert_eq!(state.pc(), 0x204);
    exec(&mut state, 0x91, 0x20).unwrap();
    assert_eq!(state.pc(), 0x204);
    exec(&mut state, 0x41, 0x08).unwrap();
    assert_eq!(state.pc(), 0x206);
}

#[test]
fn call_return_and_jumps() {
    let mut state = State::new();
    state.load_rom(vec![0x23, 0x00]);
    let op = state.next_op().unwrap();
    state.execute_op(op).unwrap();
    assert_eq!(state.pc(), 0x300);
    exec(&mut state, 0x00, 0xEE).unwrap();
    assert_eq!(state.pc(), 0x202);
    exec(&mut state, 0x14, 0x56).unwrap();
    assert_eq!(state.pc(), 0x456);
    set(&mut state, 0, 0x10);
    exec(&mut state, 0xB1, 0x00).unwrap();
    assert_eq!(state.pc(), 0x110);
}

#[test]
fn return_with_empty_stack_fails() {
    let mut state = State::new();
    assert_eq!(exec(&mut state, 0x00, 0xEE), Err(ChipError::StackUnderflow));
    assert_eq!(state.pc(), 0x200);
}

#[test]
fn unknown_opcodes_fail() {
    let mut state = State::new();
    assert_eq!(
        exec(&mut state, 0x01, 0x23),
        Err(ChipError::UnknownOpcode(OpCode::from_bytes(0x01, 0x23)))
    );
    assert_eq!(
        exec(&mut state, 0x81, 0x28),
        Err(ChipError::UnknownOpcode(OpCode::from_bytes(0x81, 0x28)))
    );
    assert_eq!(
        exec(&mut state, 0xE1, 0x00),
        Err(ChipError::UnknownOpcode(OpCode::from_bytes(0xE1, 0x00)))
    );
    assert_eq!(
        exec(&mut state, 0xF1, 0x99),
        Err(ChipError::UnknownOpcode(OpCode::from_bytes(0xF1, 0x99)))
    );
}

#[test]
fn timers() {
    let mut state = State::new();
    set(&mut state, 1, 2);
    exec(&mut state, 0xF1, 0x15).unwrap();
    exec(&mut state, 0xF1, 0x18).unwrap();
    assert_eq!(state.delay_timer(), 2);
    assert_eq!(state.sound_timer(), 2);
    state.decrement_timers();
    exec(&mut state, 0xF4, 0x07).unwrap();
    assert_eq!(reg(&state, 4), 1);
    state.decrement_timers();
    state.decrement_timers();
    assert_eq!(state.delay_timer(), 0);
    assert_eq!(state.sound_timer(), 0);
}

#[test]
fn index_register_ops() {
    let mut state = State::new();
    exec(&mut state, 0xA1, 0x23).unwrap();
    assert_eq!(state.index_register(), 0x123);
    set(&mut state, 2, 0x10);
    exec(&mut state, 0xF2, 0x1E).unwrap();
    assert_eq!(state.index_register(), 0x133);
    set(&mut state, 2, 0x1F);
    exec(&mut state, 0xF2, 0x29).unwrap();
    assert_eq!(state.index_register(), 0x50 + 5 * 0xF);
}

#[test]
fn random_is_masked() {
    let mut state = State::new();
    for _ in 0..50 {
        exec(&mut state, 0xC1, 0x0F).unwrap();
        assert!(reg(&state, 1) <= 0x0F);
        exec(&mut state, 0xC2, 0x00).unwrap();
        assert_eq!(reg(&state, 2), 0);
    }
    let mut seen_nonzero = false;
    for _ in 0..64 {
        exec(&mut state, 0xC3, 0xFF).unwrap();
        if reg(&state, 3) != 0 {
            seen_nonzero = true;
        }
    }
    assert!(seen_nonzero);
}

#[test]
fn random_with_given_byte() {
    let mut state = State::new();
    state.execute_op_with_random(OpCode::from_bytes(0xC5, 0x3C), 0xA7).unwrap();
    assert_eq!(reg(&state, 5), 0x24);
}

#[test]
fn setters_and_carry() {
    let mut state = State::new();
    let op = OpCode::from_bytes(0x83, 0x40);
    state.set_vx(&op, 9);
    assert_eq!(state.get_vx(&op), 9);
    assert_eq!(state.get_vy(&op), 0);
    state.set_carry(true);
    assert_eq!(reg(&state, 0xF), 1);
    state.set_carry(false);
    assert_eq!(reg(&state, 0xF), 0);
}
