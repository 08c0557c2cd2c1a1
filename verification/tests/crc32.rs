use snap::CheckSummer;

#[test]
fn crc32c_known_values() {
    let c = CheckSummer::new();
    assert_eq!(0x0000_0000, c.crc32c(b""));
    assert_eq!(0xC1D0_4330, c.crc32c(b"a"));
    assert_eq!(0xE306_9283, c.crc32c(b"123456789"));
    assert_eq!(0x2262_0404, c.crc32c(b"The quick brown fox jumps over the lazy dog"));
}

#[test]
fn crc32c_of_whole_rounds() {
    let c = CheckSummer::new();
    assert_eq!(0x8A91_36AA, c.crc32c(&[0u8; 32]));
    assert_eq!(0x62A8_AB43, c.crc32c(&[0xFFu8; 32]));
    let ascending: Vec<u8> = (0..32).collect();
    assert_eq!(0x46DD_794E, c.crc32c(&ascending));
    let descending: Vec<u8> = (0..32).rev().collect();
    assert_eq!(0x113F_DB5C, c.crc32c(&descending));
}

#[test]
fn crc32c_of_rounds_and_a_tail() {
    let c = CheckSummer::new();
    let data: Vec<u8> = (0..100).collect();
    assert_eq!(0xC1CA_EBE5, c.crc32c(&data));
}

#[test]
fn masked_known_values() {
    let c = CheckSummer::new();
    assert_eq!(0xA282_EAD8, c.crc32c_masked(b""));
    assert_eq!(0x28E4_6E78, c.crc32c_masked(b"a"));
    assert_eq!(0xC78A_B0E5, c.crc32c_masked(b"123456789"));
    assert_eq!(0x0FD7_FFFA, c.crc32c_masked(&[0u8; 32]));
    assert_eq!(0xF909_B029, c.crc32c_masked(&[0xFFu8; 32]));
    let data: Vec<u8> = (0..100).collect();
    assert_eq!(0x7A4E_6E6D, c.crc32c_masked(&data));
}

#[test]
fn masked_is_the_same_on_every_call() {
    let a = CheckSummer::new();
    let b = a.clone();
    let data: Vec<u8> = (0..1000u32).map(|i| (i * 31) as u8).collect();
    let first = a.crc32c_masked(&data);
    assert_eq!(first, a.crc32c_masked(&data));
    assert_eq!(first, b.crc32c_masked(&data));
    assert_eq!(first, CheckSummer::new().crc32c_masked(&data));
}

#[test]
fn masked_changes_with_any_single_bit() {
    let c = CheckSummer::new();
    let data: Vec<u8> = (0..40u32).map(|i| (i * 13 + 5) as u8).collect();
    let sum = c.crc32c_masked(&data);
    for i in 0..data.len() {
        for bit in 0..8 {
            let mut changed = data.clone();
            changed[i] ^= 1 << bit;
            assert_ne!(sum, c.crc32c_masked(&changed));
        }
    }
}

#[test]
fn slicing_agrees_with_one_bit_at_a_time() {
    let c = CheckSummer::new();
    let data: Vec<u8> = (0..77u32).map(|i| (i * i + 3) as u8).collect();
    for len in 0..data.len() {
        let mut crc: u32 = !0;
        for &b in &data[..len] {
            crc ^= b as u32;
            for _ in 0..8 {
                crc = if crc & 1 == 1 { (crc >> 1) ^ 0x82F6_3B78 } else { crc >> 1 };
            }
        }
        assert_eq!(!crc, c.crc32c(&data[..len]));
    }
}
