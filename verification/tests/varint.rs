use snap::varint::{decode, encode, encode_into};
use snap::Error;

#[test]
fn encode_known_values() {
    assert_eq!(vec![0x00], encode(0));
    assert_eq!(vec![0x01], encode(1));
    assert_eq!(vec![0x7F], encode(127));
    assert_eq!(vec![0x80, 0x01], encode(128));
    assert_eq!(vec![0xAC, 0x02], encode(300));
    assert_eq!(vec![0xFF, 0xFF, 0xFF, 0xFF, 0x0F], encode(4294967295));
    assert_eq!(vec![0x80, 0x80, 0x80, 0x80, 0x10], encode(4294967296));
    assert_eq!(
        vec![0xFF, 0xFF, 0xFF, 0xFF, 0xFF, 0xFF, 0xFF, 0xFF, 0xFF, 0x01],
        encode(u64::MAX)
    );
}

#[test]
fn decode_known_values() {
    assert_eq!(Ok((0, 1)), decode(&[0x00]));
    assert_eq!(Ok((127, 1)), decode(&[0x7F]));
    assert_eq!(Ok((128, 2)), decode(&[0x80, 0x01]));
    assert_eq!(Ok((300, 2)), decode(&[0xAC, 0x02, 0xFF, 0xFF]));
    assert_eq!(Ok((4294967295, 5)), decode(&[0xFF, 0xFF, 0xFF, 0xFF, 0x0F]));
    // Groups of zero are taken as they come.
    assert_eq!(Ok((0, 2)), decode(&[0x80, 0x00]));
}

#[test]
fn decode_errors() {
    assert_eq!(Err(Error::Corrupt), decode(&[]));
    assert_eq!(Err(Error::Corrupt), decode(&[0xFF]));
    assert_eq!(Err(Error::Corrupt), decode(&[0x80, 0x80, 0x80, 0x80]));
    assert_eq!(Err(Error::Corrupt), decode(&[0x80, 0x80, 0x80, 0x80, 0x80, 0x00]));
    assert_eq!(
        Err(Error::TooBig {
            given: 4294967296,
            max: 4294967295
        }),
        decode(&[0x80, 0x80, 0x80, 0x80, 0x10])
    );
    assert_eq!(
        Err(Error::TooBig {
            given: 34359738367,
            max: 4294967295
        }),
        decode(&[0xFF, 0xFF, 0xFF, 0xFF, 0x7F])
    );
}

#[test]
fn decode_undoes_encode() {
    for n in [0u64, 1, 127, 128, 16383, 16384, 2097151, 2097152, 268435455, 268435456, 4294967295] {
        let bytes = encode(n);
        assert_eq!(Ok((n, bytes.len())), decode(&bytes));
    }
}

#[test]
fn encode_into_writes_in_place() {
    let mut buf = [0xEEu8; 8];
    assert_eq!(2, encode_into(300, &mut buf, 3));
    assert_eq!([0xEE, 0xEE, 0xEE, 0xAC, 0x02, 0xEE, 0xEE, 0xEE], buf);
}
