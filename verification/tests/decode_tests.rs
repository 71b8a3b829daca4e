use chip8::Opcode;

#[test]
fn decode_extracts_all_fields() {
    let op = Opcode::new(0xA2F0);
    assert_eq!(op.raw, 0xA2F0);
    assert_eq!(op.op_type, 0xA);
    assert_eq!(op.x, 0x2);
    assert_eq!(op.y, 0xF);
    assert_eq!(op.n, 0x0);
    assert_eq!(op.get_nn(), 0xF0);
    assert_eq!(op.get_nnn(), 0x2F0);
}

#[test]
fn decode_all_ones() {
    let op = Opcode::new(0xFFFF);
    assert_eq!(op.op_type, 0xF);
    assert_eq!(op.x, 0xF);
    assert_eq!(op.y, 0xF);
    assert_eq!(op.n, 0xF);
    assert_eq!(op.get_nn(), 0xFF);
    assert_eq!(op.get_nnn(), 0xFFF);
}

#[test]
fn decode_all_zeros() {
    let op = Opcode::new(0x0000);
    assert_eq!(op.op_type, 0);
    assert_eq!(op.x, 0);
    assert_eq!(op.y, 0);
    assert_eq!(op.n, 0);
    assert_eq!(op.get_nn(), 0);
    assert_eq!(op.get_nnn(), 0);
}

#[test]
fn decode_never_fails_on_sampled_range() {
    // decode is total: every word yields nibble-sized fields
    let mut raw: u32 = 0;
    while raw <= 0xFFFF {
        let op = Opcode::new(raw as u16);
        assert!(op.op_type <= 0xF);
        assert!(op.x <= 0xF);
        assert!(op.y <= 0xF);
        assert!(op.n <= 0xF);
        assert_eq!(op.get_nnn() & 0xF000, 0);
        raw += 1;
    }
}
