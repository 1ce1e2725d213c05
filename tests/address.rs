use disassemble::{Address, Radix, RadixFormat};

fn plain(radix: Radix) -> RadixFormat {
    RadixFormat { radix, alternate: false, width: 0, zero_pad: false }
}

#[test]
fn address_comparison() {
    let addr1 = Address::new(5);
    let addr2 = Address::new(3);
    let addr3 = Address::new(5);
    assert!(addr2 < addr1);
    assert_eq!(addr1, addr3);
}

#[test]
fn binary_fmt() {
    let a = Address::new(4);
    assert_eq!("100", a.format(plain(Radix::Binary)));
}

#[test]
fn octal_fmt() {
    let a = Address::new(10);
    assert_eq!("12", a.format(plain(Radix::Octal)));
}

#[test]
fn lower_hex_fmt() {
    let a = Address::new(0xc1);
    let f = |alternate: bool, width: usize, zero_pad: bool| RadixFormat {
        radix: Radix::LowerHex,
        alternate,
        width,
        zero_pad,
    };
    assert_eq!("0xc1", a.format(f(true, 0, false)));
    assert_eq!("  0xc1", a.format(f(true, 6, false)));
    assert_eq!("    c1", a.format(f(false, 6, false)));
    assert_eq!("0000c1", a.format(f(false, 6, true)));
}

#[test]
fn upper_hex_fmt() {
    let a = Address::new(0xc1);
    let f = |alternate: bool, width: usize, zero_pad: bool| RadixFormat {
        radix: Radix::UpperHex,
        alternate,
        width,
        zero_pad,
    };
    assert_eq!("0xC1", a.format(f(true, 0, false)));
    assert_eq!("  0xC1", a.format(f(true, 6, false)));
    assert_eq!("    C1", a.format(f(false, 6, false)));
    assert_eq!("0000C1", a.format(f(false, 6, true)));
}

#[test]
fn formats_match_std_formatting() {
    for n in [0u64, 1, 7, 8, 255, 0x6502, u64::MAX] {
        let a = Address::new(n);
        assert_eq!(format!("{:b}", n), a.format(plain(Radix::Binary)));
        assert_eq!(format!("{:o}", n), a.format(plain(Radix::Octal)));
        assert_eq!(format!("{:x}", n), a.format(plain(Radix::LowerHex)));
        assert_eq!(format!("{:X}", n), a.format(plain(Radix::UpperHex)));
        let alt = |radix| RadixFormat { radix, alternate: true, width: 10, zero_pad: true };
        assert_eq!(format!("{:#010b}", n), a.format(alt(Radix::Binary)));
        assert_eq!(format!("{:#010o}", n), a.format(alt(Radix::Octal)));
        assert_eq!(format!("{:#010x}", n), a.format(alt(Radix::LowerHex)));
    }
}

#[test]
fn zero_pads_after_the_prefix() {
    let a = Address::new(0x6502);
    let f = RadixFormat { radix: Radix::LowerHex, alternate: true, width: 10, zero_pad: true };
    assert_eq!("0x00006502", a.format(f));
}

#[test]
fn width_smaller_than_text_adds_nothing() {
    let a = Address::new(0x6502);
    let f = RadixFormat { radix: Radix::LowerHex, alternate: true, width: 2, zero_pad: false };
    assert_eq!("0x6502", a.format(f));
}
