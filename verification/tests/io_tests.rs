use chip8::Chip8IO;

#[test]
fn fresh_display_is_all_secondary() {
    let io = Chip8IO::new(0xAABBCCDD, 0x11223344);
    for row in 0..32 {
        for col in 0..64 {
            assert_eq!(io.get_pixel_color(row, col), 0x11223344);
        }
    }
    for key in 0..16 {
        assert!(!io.is_key_pressed(key));
    }
}

#[test]
fn write_pixel_touches_only_its_cell() {
    let mut io = Chip8IO::new(0xFFFFFFFF, 0x000000FF);
    io.write_pixel(3, 7, true);
    for row in 0..32 {
        for col in 0..64 {
            let expected = if (row, col) == (3, 7) { 0xFFFFFFFF } else { 0x000000FF };
            assert_eq!(io.get_pixel_color(row, col), expected);
        }
    }
    io.write_pixel(3, 7, false);
    assert_eq!(io.get_pixel_color(3, 7), 0x000000FF);
}

#[test]
fn pixel_bytes_are_stored_most_significant_first() {
    let mut io = Chip8IO::new(0xAABBCCDD, 0x00000000);
    io.write_pixel(0, 0, true);
    assert_eq!(&io.display_buffer[0..4], &[0xAA, 0xBB, 0xCC, 0xDD]);
}

#[test]
fn clear_resets_every_cell() {
    let mut io = Chip8IO::new(0xFFFFFFFF, 0x000000FF);
    io.write_pixel(0, 0, true);
    io.write_pixel(31, 63, true);
    io.clear();
    for row in 0..32 {
        for col in 0..64 {
            assert_eq!(io.get_pixel_color(row, col), 0x000000FF);
        }
    }
}

#[test]
fn keys_toggle_independently() {
    let mut io = Chip8IO::new(1, 0);
    io.set_key(0, true);
    io.set_key(15, true);
    assert!(io.is_key_pressed(0));
    assert!(io.is_key_pressed(15));
    assert!(!io.is_key_pressed(7));
    io.set_key(15, false);
    assert!(!io.is_key_pressed(15));
    assert!(io.is_key_pressed(0));
}
