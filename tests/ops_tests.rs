use rick::ops::{and_16, and_32, mingle, or_16, or_32, select, xor_16, xor_32};

#[test]
fn mingle_interleaves_bits() {
    assert_eq!(mingle(0, 0), 0);
    assert_eq!(mingle(1, 0), 2);
    assert_eq!(mingle(0, 1), 1);
    assert_eq!(mingle(0xFFFF, 0xFFFF), 0xFFFF_FFFF);
    assert_eq!(mingle(0xFFFF, 0), 0xAAAA_AAAA);
    assert_eq!(mingle(0, 0xFFFF), 0x5555_5555);
    assert_eq!(mingle(0b11, 0b01), 0b1011);
}

#[test]
fn select_gathers_bits() {
    assert_eq!(select(0b1010, 0b1110), 0b101);
    assert_eq!(select(0xFFFF_FFFF, 0xF0F0), 0xFF);
    assert_eq!(select(0x1234_5678, 0), 0);
    assert_eq!(select(0x1234_5678, 0xFFFF_FFFF), 0x1234_5678);
    assert_eq!(select(0x8000_0000, 0x8000_0000), 1);
}

#[test]
fn select_inverts_mingle() {
    for &(v, w) in &[(0u32, 0u32), (1, 2), (0xFFFF, 0), (0x1234, 0xABCD), (0xFFFF, 0xFFFF), (0x8001, 0x7FFE)] {
        let m = mingle(v, w);
        assert_eq!(select(m, 0xAAAA_AAAA), v);
        assert_eq!(select(m, 0x5555_5555), w);
    }
}

#[test]
fn unary_operators() {
    assert_eq!(and_16(3), 1);
    assert_eq!(or_16(3), 0x8003);
    assert_eq!(xor_16(3), 0x8002);
    assert_eq!(and_16(0xFFFF), 0xFFFF);
    assert_eq!(and_32(3), 1);
    assert_eq!(or_32(3), 0x8000_0003);
    assert_eq!(xor_32(3), 0x8000_0002);
    assert_eq!(xor_32(0), 0);
}
