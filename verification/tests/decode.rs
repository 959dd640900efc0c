use derp::decode::{decode, Class};

const PC: u64 = 0x1000;

#[test]
fn branches() {
    assert_eq!(decode(0x1400_0000, PC), Class::B { target: PC });
    assert_eq!(decode(0x97FF_FFFF, PC), Class::Bl { target: PC - 4 });
    assert_eq!(
        decode(0x54FF_FFC0, PC),
        Class::BCond {
            cond: 0,
            target: PC - 8
        }
    );
    assert_eq!(
        decode(0x54FF_FFA1, PC),
        Class::BCond {
            cond: 1,
            target: PC - 12
        }
    );
    assert_eq!(
        decode(0xB4FF_FF83, PC),
        Class::Cbz {
            sf: true,
            rt: 3,
            nonzero: false,
            target: PC - 16
        }
    );
    assert_eq!(
        decode(0x35FF_FF65, PC),
        Class::Cbz {
            sf: false,
            rt: 5,
            nonzero: true,
            target: PC - 20
        }
    );
    assert_eq!(
        decode(0xB647_FF47, PC),
        Class::Tbz {
            rt: 7,
            bit: 40,
            nonzero: false,
            target: PC - 24
        }
    );
    assert_eq!(
        decode(0x371F_FF22, PC),
        Class::Tbz {
            rt: 2,
            bit: 3,
            nonzero: true,
            target: PC - 28
        }
    );
    assert_eq!(decode(0xD61F_0120, PC), Class::Br { rn: 9 });
    assert_eq!(decode(0xD63F_0200, PC), Class::Blr { rn: 16 });
    assert_eq!(decode(0xD65F_03C0, PC), Class::Ret);
    assert_eq!(decode(0xD400_1001, PC), Class::Svc);
    assert_eq!(decode(0xD503_201F, PC), Class::Other); // nop
}

#[test]
fn memory() {
    let mem = |base| Class::Mem { base };
    assert_eq!(decode(0xF940_0462, PC), mem(3)); // ldr x2, [x3, #8]
    assert_eq!(decode(0xB940_13E2, PC), mem(31)); // ldr w2, [sp, #16]
    assert_eq!(decode(0xF85F_83A2, PC), mem(29)); // ldur x2, [x29, #-8]
    assert_eq!(decode(0xF840_8462, PC), mem(3)); // ldr x2, [x3], #8
    assert_eq!(decode(0xF800_8C62, PC), mem(3)); // str x2, [x3, #8]!
    assert_eq!(decode(0xF864_6862, PC), mem(3)); // ldr x2, [x3, x4]
    assert_eq!(decode(0xA941_0C82, PC), mem(4)); // ldp x2, x3, [x4, #16]
    assert_eq!(decode(0xADBF_07E0, PC), mem(31)); // stp q0, q1, [sp, #-32]!
    assert_eq!(decode(0x3DC0_0020, PC), mem(1)); // ldr q0, [x1]
    assert_eq!(decode(0xC8DF_FC20, PC), mem(1)); // ldar
    assert_eq!(decode(0xC89F_FC20, PC), mem(1)); // stlr
    assert_eq!(decode(0xF820_0041, PC), mem(2)); // ldadd
    assert_eq!(decode(0xB8E0_0041, PC), mem(2)); // ldaddal
    assert_eq!(decode(0xC8A0_7C41, PC), mem(2)); // cas
    assert_eq!(decode(0x88E0_FC41, PC), mem(2)); // casal
    assert_eq!(decode(0xF820_8041, PC), mem(2)); // swp
    assert_eq!(decode(0x4820_7C82, PC), mem(4)); // casp
    assert_eq!(decode(0x4C40_7820, PC), mem(1)); // ld1.4s
    assert_eq!(decode(0x4C9F_7820, PC), mem(1)); // st1.4s post
    assert_eq!(decode(0x3940_0C20, PC), mem(1)); // ldrb
    assert_eq!(decode(0xB980_0420, PC), mem(1)); // ldrsw
    assert_eq!(decode(0x7900_0420, PC), mem(1)); // strh
    assert_eq!(decode(0xF8BF_C020, PC), mem(1)); // ldapr
    assert_eq!(decode(0x3980_1020, PC), mem(1)); // ldrsb

    assert_eq!(decode(0xC85F_7C20, PC), Class::ExclusiveLoad); // ldxr
    assert_eq!(decode(0xC802_7C20, PC), Class::ExclusiveStore); // stxr
    assert_eq!(decode(0x885F_FC20, PC), Class::ExclusiveLoad); // ldaxr
    assert_eq!(decode(0x8802_FC20, PC), Class::ExclusiveStore); // stlxr
    assert_eq!(decode(0xC87F_0440, PC), Class::ExclusiveLoad); // ldxp
    assert_eq!(decode(0xC824_0440, PC), Class::ExclusiveStore); // stxp

    assert_eq!(decode(0x5800_02C0, PC), Class::Other); // ldr x0, literal
    assert_eq!(decode(0xF980_0020, PC), Class::Other); // prfm
    assert_eq!(decode(0xF840_0820, PC), Class::Other); // ldtr
}

#[test]
fn stack_addresses() {
    assert_eq!(decode(0x9100_43E0, PC), Class::StackAddr); // add x0, sp, #16
    assert_eq!(decode(0xD100_43E0, PC), Class::StackAddr); // sub x0, sp, #16
    assert_eq!(decode(0x9100_03E0, PC), Class::StackAddr); // mov x0, sp
    assert_eq!(decode(0x8B21_63E0, PC), Class::StackAddr); // add x0, sp, x1
    assert_eq!(decode(0x9100_43A0, PC), Class::StackAddr); // add x0, x29, #16
    assert_eq!(decode(0xD100_43A0, PC), Class::StackAddr); // sub x0, x29, #16
    assert_eq!(decode(0x9100_43FD, PC), Class::Other); // add x29, sp, #16
    assert_eq!(decode(0x9100_43FF, PC), Class::Other); // add sp, sp, #16
    assert_eq!(decode(0x9100_4020, PC), Class::Other); // add x0, x1, #16
    assert_eq!(decode(0xD53B_D060, PC), Class::Other); // mrs
}
