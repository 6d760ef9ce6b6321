use chip8::op_code::OpCode;

#[test]
fn decode_splits_fields() {
    let op = OpCode::from_bytes(0xD1, 0x2F);
    assert_eq!(op.op, 0xD);
    assert_eq!(op.x, 0x1);
    assert_eq!(op.y, 0x2);
    assert_eq!(op.n, 0xF);
    assert_eq!(op.nn, 0x2F);
    assert_eq!(op.nnn, 0x12F);
}

#[test]
fn decode_every_byte_pair() {
    for b1 in 0..=255u8 {
        for b2 in 0..=255u8 {
            let op = OpCode::from_bytes(b1, b2);
            assert_eq!(op.op, (b1 >> 4) & 0xF);
            assert_eq!(op.x, b1 & 0xF);
            assert_eq!(op.y, (b2 >> 4) & 0xF);
            assert_eq!(op.n, b2 & 0xF);
            assert_eq!(op.nn, b2);
            assert_eq!(op.nnn, (((b1 as u16) << 8) | b2 as u16) & 0xFFF);
        }
    }
}
