use chip8::{Chip8, Chip8Error, Chip8IO};

const PRIMARY: u32 = 0xFFFFFFFF;
const SECONDARY: u32 = 0x000000FF;

fn machine_with(instr: u16) -> (Chip8, Chip8IO) {
    let mut cpu = Chip8::new();
    cpu.memory[0x200] = (instr >> 8) as u8;
    cpu.memory[0x201] = (instr & 0xFF) as u8;
    let io = Chip8IO::new(PRIMARY, SECONDARY);
    (cpu, io)
}

#[test]
fn add_with_overflow_sets_carry() {
    let (mut cpu, mut io) = machine_with(0x8014);
    cpu.registers[0] = 0xFF;
    cpu.registers[1] = 0x01;
    assert!(cpu.run_cycle(&mut io).is_ok());
    assert_eq!(cpu.registers[0], 0x00);
    assert_eq!(cpu.registers[0xF], 1);
}

#[test]
fn add_without_overflow_clears_carry() {
    let (mut cpu, mut io) = machine_with(0x8014);
    cpu.registers[0] = 0x10;
    cpu.registers[1] = 0x01;
    cpu.registers[0xF] = 1;
    assert!(cpu.run_cycle(&mut io).is_ok());
    assert_eq!(cpu.registers[0], 0x11);
    assert_eq!(cpu.registers[0xF], 0);
}

#[test]
fn sub_with_borrow_clears_flag() {
    let (mut cpu, mut io) = machine_with(0x8015);
    cpu.registers[0] = 0x05;
    cpu.registers[1] = 0x0A;
    assert!(cpu.run_cycle(&mut io).is_ok());
    assert_eq!(cpu.registers[0], 0xFB);
    assert_eq!(cpu.registers[0xF], 0);
}

#[test]
fn sub_without_borrow_sets_flag() {
    let (mut cpu, mut io) = machine_with(0x8015);
    cpu.registers[0] = 0x0A;
    cpu.registers[1] = 0x05;
    assert!(cpu.run_cycle(&mut io).is_ok());
    assert_eq!(cpu.registers[0], 0x05);
    assert_eq!(cpu.registers[0xF], 1);
}

#[test]
fn reverse_sub_uses_vy_minus_vx() {
    let (mut cpu, mut io) = machine_with(0x8017);
    cpu.registers[0] = 0x01;
    cpu.registers[1] = 0x03;
    assert!(cpu.run_cycle(&mut io).is_ok());
    assert_eq!(cpu.registers[0], 0x02);
    assert_eq!(cpu.registers[0xF], 1);
}

#[test]
fn shift_right_keeps_dropped_bit_in_vf() {
    let (mut cpu, mut io) = machine_with(0x8006);
    cpu.registers[0] = 0x05;
    assert!(cpu.run_cycle(&mut io).is_ok());
    assert_eq!(cpu.registers[0], 0x02);
    assert_eq!(cpu.registers[0xF], 1);
}

#[test]
fn shift_left_keeps_dropped_bit_in_vf() {
    let (mut cpu, mut io) = machine_with(0x800E);
    cpu.registers[0] = 0x81;
    assert!(cpu.run_cycle(&mut io).is_ok());
    assert_eq!(cpu.registers[0], 0x02);
    assert_eq!(cpu.registers[0xF], 1);
}

#[test]
fn bitwise_or_and_xor() {
    let (mut cpu, mut io) = machine_with(0x8011);
    cpu.registers[0] = 0b1010;
    cpu.registers[1] = 0b0110;
    assert!(cpu.run_cycle(&mut io).is_ok());
    assert_eq!(cpu.registers[0], 0b1110);

    let (mut cpu, mut io) = machine_with(0x8012);
    cpu.registers[0] = 0b1010;
    cpu.registers[1] = 0b0110;
    assert!(cpu.run_cycle(&mut io).is_ok());
    assert_eq!(cpu.registers[0], 0b0010);

    let (mut cpu, mut io) = machine_with(0x8013);
    cpu.registers[0] = 0b1010;
    cpu.registers[1] = 0b0110;
    assert!(cpu.run_cycle(&mut io).is_ok());
    assert_eq!(cpu.registers[0], 0b1100);
}

#[test]
fn register_move_copies_vy() {
    let (mut cpu, mut io) = machine_with(0x8010);
    cpu.registers[1] = 0x42;
    assert!(cpu.run_cycle(&mut io).is_ok());
    assert_eq!(cpu.registers[0], 0x42);
}

#[test]
fn return_on_empty_stack_underflows_without_moving_pc() {
    let (mut cpu, mut io) = machine_with(0x00EE);
    let r = cpu.run_cycle(&mut io);
    assert_eq!(r, Err(Chip8Error::StackUnderflow));
    // only the documented pre-execution advance happened
    assert_eq!(cpu.pc, 0x202);
    assert!(cpu.stack.is_empty());
}

#[test]
fn call_then_return_restores_pc() {
    let (mut cpu, mut io) = machine_with(0x2400);
    assert!(cpu.run_cycle(&mut io).is_ok());
    assert_eq!(cpu.pc, 0x400);
    assert_eq!(cpu.stack, vec![0x202]);

    cpu.memory[0x400] = 0x00;
    cpu.memory[0x401] = 0xEE;
    assert!(cpu.run_cycle(&mut io).is_ok());
    assert_eq!(cpu.pc, 0x202);
    assert!(cpu.stack.is_empty());
}

#[test]
fn jump_sets_pc() {
    let (mut cpu, mut io) = machine_with(0x1ABC);
    assert!(cpu.run_cycle(&mut io).is_ok());
    assert_eq!(cpu.pc, 0xABC);
}

#[test]
fn jump_with_offset_adds_v0() {
    let (mut cpu, mut io) = machine_with(0xB300);
    cpu.registers[0] = 0x21;
    assert!(cpu.run_cycle(&mut io).is_ok());
    assert_eq!(cpu.pc, 0x321);
}

#[test]
fn skip_if_equal_immediate() {
    let (mut cpu, mut io) = machine_with(0x3042);
    cpu.registers[0] = 0x42;
    assert!(cpu.run_cycle(&mut io).is_ok());
    assert_eq!(cpu.pc, 0x204);

    let (mut cpu, mut io) = machine_with(0x3042);
    cpu.registers[0] = 0x41;
    assert!(cpu.run_cycle(&mut io).is_ok());
    assert_eq!(cpu.pc, 0x202);
}

#[test]
fn skip_if_not_equal_immediate() {
    let (mut cpu, mut io) = machine_with(0x4042);
    cpu.registers[0] = 0x41;
    assert!(cpu.run_cycle(&mut io).is_ok());
    assert_eq!(cpu.pc, 0x204);

    let (mut cpu, mut io) = machine_with(0x4042);
    cpu.registers[0] = 0x42;
    assert!(cpu.run_cycle(&mut io).is_ok());
    assert_eq!(cpu.pc, 0x202);
}

#[test]
fn skip_if_registers_equal_or_not() {
    let (mut cpu, mut io) = machine_with(0x5010);
    cpu.registers[0] = 7;
    cpu.registers[1] = 7;
    assert!(cpu.run_cycle(&mut io).is_ok());
    assert_eq!(cpu.pc, 0x204);

    let (mut cpu, mut io) = machine_with(0x9010);
    cpu.registers[0] = 7;
    cpu.registers[1] = 8;
    assert!(cpu.run_cycle(&mut io).is_ok());
    assert_eq!(cpu.pc, 0x204);

    let (mut cpu, mut io) = machine_with(0x9010);
    cpu.registers[0] = 7;
    cpu.registers[1] = 7;
    assert!(cpu.run_cycle(&mut io).is_ok());
    assert_eq!(cpu.pc, 0x202);
}

#[test]
fn load_and_add_immediate_wrap() {
    let (mut cpu, mut io) = machine_with(0x60AB);
    assert!(cpu.run_cycle(&mut io).is_ok());
    assert_eq!(cpu.registers[0], 0xAB);

    let (mut cpu, mut io) = machine_with(0x7002);
    cpu.registers[0] = 0xFF;
    assert!(cpu.run_cycle(&mut io).is_ok());
    assert_eq!(cpu.registers[0], 0x01);
    // 7XNN never touches VF
    assert_eq!(cpu.registers[0xF], 0);
}

#[test]
fn set_index_register() {
    let (mut cpu, mut io) = machine_with(0xA2F0);
    assert!(cpu.run_cycle(&mut io).is_ok());
    assert_eq!(cpu.i, 0x2F0);
}

#[test]
fn random_byte_is_masked() {
    let (mut cpu, mut io) = machine_with(0xC00F);
    cpu.registers[0] = 0xFF;
    assert!(cpu.run_cycle(&mut io).is_ok());
    assert_eq!(cpu.registers[0] & 0xF0, 0);
}

#[test]
fn invalid_opcodes_are_reported_with_raw_word() {
    for instr in [0x00FFu16, 0x8018, 0xE0F2, 0xF099] {
        let (mut cpu, mut io) = machine_with(instr);
        let r = cpu.run_cycle(&mut io);
        assert_eq!(r, Err(Chip8Error::InvalidOpcode(instr)));
        assert_eq!(cpu.pc, 0x202);
    }
}

#[test]
fn draw_sets_pixels_then_erases_on_redraw() {
    let (mut cpu, mut io) = machine_with(0xD011);
    cpu.i = 0x300;
    cpu.memory[0x300] = 0xFF;
    assert!(cpu.run_cycle(&mut io).is_ok());
    // exactly eight contiguous primary pixels in row 0, no collision
    assert_eq!(cpu.registers[0xF], 0);
    for col in 0..64 {
        let expected = if col < 8 { PRIMARY } else { SECONDARY };
        assert_eq!(io.get_pixel_color(0, col), expected);
    }
    for row in 1..32 {
        for col in 0..64 {
            assert_eq!(io.get_pixel_color(row, col), SECONDARY);
        }
    }

    // identical draw flips the same pixels back and reports the collision
    cpu.pc = 0x200;
    assert!(cpu.run_cycle(&mut io).is_ok());
    assert_eq!(cpu.registers[0xF], 1);
    for col in 0..64 {
        assert_eq!(io.get_pixel_color(0, col), SECONDARY);
    }
}

#[test]
fn draw_wraps_anchor_and_clips_overhang() {
    let (mut cpu, mut io) = machine_with(0xD011);
    cpu.registers[0] = 62 + 64; // anchor column wraps to 62
    cpu.registers[1] = 31; // last row
    cpu.i = 0x300;
    cpu.memory[0x300] = 0xFF;
    assert!(cpu.run_cycle(&mut io).is_ok());
    assert_eq!(io.get_pixel_color(31, 62), PRIMARY);
    assert_eq!(io.get_pixel_color(31, 63), PRIMARY);
    // the six overhanging pixels are clipped, not wrapped
    for col in 0..6 {
        assert_eq!(io.get_pixel_color(31, col), SECONDARY);
    }
}

#[test]
fn clear_screen_resets_every_pixel() {
    let (mut cpu, mut io) = machine_with(0x00E0);
    io.write_pixel(5, 6, true);
    io.write_pixel(31, 63, true);
    assert!(cpu.run_cycle(&mut io).is_ok());
    for row in 0..32 {
        for col in 0..64 {
            assert_eq!(io.get_pixel_color(row, col), SECONDARY);
        }
    }
}

#[test]
fn skip_on_key_held_and_not_held() {
    let (mut cpu, mut io) = machine_with(0xE09E);
    cpu.registers[0] = 4;
    io.set_key(4, true);
    assert!(cpu.run_cycle(&mut io).is_ok());
    assert_eq!(cpu.pc, 0x204);

    let (mut cpu, mut io) = machine_with(0xE09E);
    cpu.registers[0] = 4;
    assert!(cpu.run_cycle(&mut io).is_ok());
    assert_eq!(cpu.pc, 0x202);

    let (mut cpu, mut io) = machine_with(0xE0A1);
    cpu.registers[0] = 4;
    assert!(cpu.run_cycle(&mut io).is_ok());
    assert_eq!(cpu.pc, 0x204);

    let (mut cpu, mut io) = machine_with(0xE0A1);
    cpu.registers[0] = 4;
    io.set_key(4, true);
    assert!(cpu.run_cycle(&mut io).is_ok());
    assert_eq!(cpu.pc, 0x202);
}

#[test]
fn wait_for_key_rolls_pc_back_until_pressed() {
    let (mut cpu, mut io) = machine_with(0xF00A);
    assert!(cpu.run_cycle(&mut io).is_ok());
    // no key held: the same instruction re-executes next cycle
    assert_eq!(cpu.pc, 0x200);

    io.set_key(9, true);
    io.set_key(3, true);
    assert!(cpu.run_cycle(&mut io).is_ok());
    // the lowest held key lands in Vx and PC stays advanced
    assert_eq!(cpu.registers[0], 3);
    assert_eq!(cpu.pc, 0x202);
}

#[test]
fn timer_transfers() {
    let (mut cpu, mut io) = machine_with(0xF007);
    cpu.delay_timer = 0x37;
    assert!(cpu.run_cycle(&mut io).is_ok());
    assert_eq!(cpu.registers[0], 0x37);

    let (mut cpu, mut io) = machine_with(0xF015);
    cpu.registers[0] = 0x21;
    assert!(cpu.run_cycle(&mut io).is_ok());
    assert_eq!(cpu.delay_timer, 0x21);

    let (mut cpu, mut io) = machine_with(0xF018);
    cpu.registers[0] = 0x22;
    assert!(cpu.run_cycle(&mut io).is_ok());
    assert_eq!(cpu.sound_timer, 0x22);
}

#[test]
fn index_add_masks_to_twelve_bits_and_flags_overflow() {
    let (mut cpu, mut io) = machine_with(0xF01E);
    cpu.i = 0xFFF;
    cpu.registers[0] = 0xFF;
    assert!(cpu.run_cycle(&mut io).is_ok());
    assert_eq!(cpu.i, 0xFE);
    assert_eq!(cpu.registers[0xF], 1);

    // without overflow VF keeps its prior value
    let (mut cpu, mut io) = machine_with(0xF01E);
    cpu.i = 0x100;
    cpu.registers[0] = 0x10;
    cpu.registers[0xF] = 1;
    assert!(cpu.run_cycle(&mut io).is_ok());
    assert_eq!(cpu.i, 0x110);
    assert_eq!(cpu.registers[0xF], 1);
}

#[test]
fn font_address_is_five_bytes_per_glyph() {
    let (mut cpu, mut io) = machine_with(0xF029);
    cpu.registers[0] = 0xA;
    assert!(cpu.run_cycle(&mut io).is_ok());
    assert_eq!(cpu.i, 0x50 + 5 * 0xA);
}

#[test]
fn decimal_decomposition_writes_three_digits() {
    let (mut cpu, mut io) = machine_with(0xF033);
    cpu.registers[0] = 159;
    cpu.i = 0x400;
    assert!(cpu.run_cycle(&mut io).is_ok());
    assert_eq!(&cpu.memory[0x400..0x403], &[1, 5, 9]);

    let (mut cpu, mut io) = machine_with(0xF033);
    cpu.registers[0] = 7;
    cpu.i = 0x400;
    assert!(cpu.run_cycle(&mut io).is_ok());
    assert_eq!(&cpu.memory[0x400..0x403], &[0, 0, 7]);
}

#[test]
fn store_writes_registers_to_memory() {
    let (mut cpu, mut io) = machine_with(0xF255);
    cpu.registers[0] = 0x11;
    cpu.registers[1] = 0x22;
    cpu.registers[2] = 0x33;
    cpu.registers[3] = 0x44; // beyond x, must not be stored
    cpu.i = 0x400;
    assert!(cpu.run_cycle(&mut io).is_ok());
    assert_eq!(&cpu.memory[0x400..0x404], &[0x11, 0x22, 0x33, 0x00]);
    assert_eq!(cpu.i, 0x400);
}

#[test]
fn load_reads_registers_from_memory() {
    let (mut cpu, mut io) = machine_with(0xF265);
    cpu.memory[0x400] = 0xAA;
    cpu.memory[0x401] = 0xBB;
    cpu.memory[0x402] = 0xCC;
    cpu.memory[0x403] = 0xDD; // beyond x, must not be loaded
    cpu.i = 0x400;
    assert!(cpu.run_cycle(&mut io).is_ok());
    assert_eq!(&cpu.registers[0..4], &[0xAA, 0xBB, 0xCC, 0x00]);
}

#[test]
fn store_then_load_round_trip_restores_registers() {
    let (mut cpu, mut io) = machine_with(0xF555);
    cpu.memory[0x202] = 0xF5;
    cpu.memory[0x203] = 0x65;
    let original = [0x10u8, 0x20, 0x30, 0x40, 0x50, 0x60];
    cpu.registers[..6].copy_from_slice(&original);
    cpu.i = 0x400;
    assert!(cpu.run_cycle(&mut io).is_ok());
    // clobber the stored registers, then load them back with the same I and x
    for k in 0..6 {
        cpu.registers[k] = 0xEE;
    }
    assert!(cpu.run_cycle(&mut io).is_ok());
    assert_eq!(&cpu.registers[0..6], &original);
    assert_eq!(cpu.i, 0x400);
}

#[test]
fn update_timers_decays_to_zero_and_stays() {
    let mut cpu = Chip8::new();
    cpu.delay_timer = 0;
    cpu.sound_timer = 1;
    cpu.update_timers();
    assert_eq!(cpu.delay_timer, 0);
    assert_eq!(cpu.sound_timer, 0);

    cpu.delay_timer = 3;
    for _ in 0..9 {
        cpu.update_timers();
    }
    assert_eq!(cpu.delay_timer, 0);
}

#[test]
fn new_machine_starts_at_program_region() {
    let cpu = Chip8::new();
    assert_eq!(cpu.pc, 0x200);
    assert_eq!(cpu.i, 0);
    assert_eq!(cpu.memory.len(), 0x1000);
    assert_eq!(cpu.registers.len(), 16);
    assert!(cpu.stack.is_empty());
    assert!(cpu.memory.iter().all(|&b| b == 0));
    assert!(cpu.registers.iter().all(|&b| b == 0));
}

#[test]
fn add_into_vf_leaves_the_carry_flag() {
    // VF as the destination: the flag write comes after the sum write
    let (mut cpu, mut io) = machine_with(0x8F14);
    cpu.registers[0xF] = 0x01;
    cpu.registers[1] = 0x02;
    assert!(cpu.run_cycle(&mut io).is_ok());
    assert_eq!(cpu.registers[0xF], 0);
}

#[test]
fn decimal_decomposition_of_largest_byte() {
    let (mut cpu, mut io) = machine_with(0xF033);
    cpu.registers[0] = 255;
    cpu.i = 0x400;
    assert!(cpu.run_cycle(&mut io).is_ok());
    assert_eq!(&cpu.memory[0x400..0x403], &[2, 5, 5]);
}

#[test]
fn largest_rom_fills_memory_to_the_end() {
    let mut cpu = Chip8::new();
    let rom = vec![0xA5u8; 0x1000 - 0x200];
    cpu.load_rom(&rom);
    assert_eq!(cpu.memory[0x200], 0xA5);
    assert_eq!(cpu.memory[0xFFF], 0xA5);
    assert_eq!(cpu.memory[0x1FF], 0);
}

#[test]
fn load_rom_and_font_place_bytes() {
    let mut cpu = Chip8::new();
    let rom = [0xDE, 0xAD, 0xBE, 0xEF];
    cpu.load_rom(&rom);
    assert_eq!(&cpu.memory[0x200..0x204], &rom);
    assert_eq!(cpu.memory[0x204], 0);

    let font = [0xF0u8, 0x90, 0x90, 0x90, 0xF0];
    cpu.load_font(&font, font.len());
    assert_eq!(&cpu.memory[0x50..0x55], &font);
    assert_eq!(cpu.memory[0x55], 0);
}
