use derp::stub::{
    add_imm, adrp, b, b_cond, bl, br, cbz, ldr_x_imm, movz_x, str_x_imm, tbz, B_RANGE, RET,
};

#[test]
fn matches_assembler() {
    assert_eq!(b(0x1000, 0x1000), Some(0x1400_0000));
    assert_eq!(bl(0x1004, 0x1000), Some(0x97FF_FFFF));
    assert_eq!(b_cond(0, 0x1008, 0x1000), Some(0x54FF_FFC0));
    assert_eq!(b_cond(1, 0x100C, 0x1000), Some(0x54FF_FFA1));
    assert_eq!(cbz(true, 3, false, 0x1010, 0x1000), Some(0xB4FF_FF83));
    assert_eq!(cbz(false, 5, true, 0x1014, 0x1000), Some(0x35FF_FF65));
    assert_eq!(tbz(7, 40, false, 0x1018, 0x1000), Some(0xB647_FF47));
    assert_eq!(tbz(2, 3, true, 0x101C, 0x1000), Some(0x371F_FF22));
    assert_eq!(br(9), 0xD61F_0120);
    assert_eq!(RET, 0xD65F_03C0);
    assert_eq!(adrp(16, 0x1_0000, 0x1_1000), Some(0xB000_0010));
    assert_eq!(adrp(16, 0x1_0000, 0x1_2000), Some(0xD000_0010));
    assert_eq!(adrp(16, 0x1_2000, 0x1_0fff), Some(0xD0FF_FFF0));
    assert_eq!(adrp(0, 0x1000, 0x1000), Some(0x9000_0000));
    assert!(adrp(0, 0, 1 << 32).is_none());
    assert_eq!(add_imm(16, 16, 0x123), 0x9104_8E10);
    assert_eq!(movz_x(0, 0x78_0000_0000), Some(0xD2C0_0F00));
    assert_eq!(movz_x(3, 0x1234), Some(0xD282_4683));
    assert_eq!(movz_x(0, 0), Some(0xD280_0000));
    assert_eq!(movz_x(0, 0x1_0001), None);
    assert_eq!(ldr_x_imm(1, 0, 0), 0xF940_0001);
    assert_eq!(ldr_x_imm(1, 0, 8), 0xF940_0401);
    assert_eq!(str_x_imm(1, 0, 0), 0xF900_0001);
}

#[test]
fn range_limits() {
    assert!(b(0, B_RANGE as u64).is_none());
    assert!(b(0, (B_RANGE - 4) as u64).is_some());
    assert!(b_cond(0, 0, 1 << 20).is_none());
    assert!(tbz(0, 0, false, 0, 1 << 15).is_none());
    assert!(tbz(0, 0, false, 1 << 15, 0).is_some());
}
