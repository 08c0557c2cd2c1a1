use quickcheck::{QuickCheck, StdGen};
use snap::{compress, decompress_len, max_compressed_len, Decoder, Error};
use std::iter::repeat;

fn press(bytes: &[u8]) -> Vec<u8> {
    let mut buf = vec![0; max_compressed_len(bytes.len())];
    let n = compress(bytes, &mut buf).unwrap();
    buf.truncate(n);
    buf
}

fn depress(bytes: &[u8]) -> Vec<u8> {
    Decoder::new().decompress_vec(bytes).unwrap()
}

fn roundtrip(data: &[u8]) {
    assert_eq!(data, &*depress(&press(data)));
}

fn roundtrips(bytes: Vec<u8>) -> bool {
    depress(&press(&bytes)) == bytes
}

fn errored(data: &[u8], err: Error) {
    let mut buf = vec![0; 1024];

    assert_eq!(err, decompress_len(data).unwrap_err());
    match Decoder::new().decompress(data, &mut buf) {
        Err(ref e) if e == &err => {}
        Err(ref e) => {
            panic!("expected decompression to fail with {:?}, but got {:?}", err, e)
        }
        Ok(n) => {
            panic!(
                "expected decompression to fail, but it wrote {:?} bytes for {:?}",
                n, data
            );
        }
    }
}

fn corrupt_body(data: &[u8]) {
    let mut buf = vec![0; 1024];
    assert_eq!(Err(Error::Corrupt), Decoder::new().decompress(data, &mut buf));
    assert_eq!(Err(Error::Corrupt), Decoder::new().decompress_vec(data));
}

#[test]
fn empty_roundtrip() {
    roundtrip(&[]);
}

#[test]
fn empty_compresses_to_one_byte() {
    assert_eq!(vec![0u8], press(&[]));
    assert_eq!(Vec::<u8>::new(), depress(&[0]));
}

#[test]
fn one_zero_roundtrip() {
    roundtrip(&[0]);
}

#[test]
fn small_copy() {
    for i in 0..32 {
        let inner: String = repeat('b').take(i).collect();
        roundtrip(&format!("aaaa{}aaaabbbb", inner).into_bytes());
    }
}

#[test]
fn small_regular() {
    let mut i = 1;
    while i < 20_000 {
        let mut buf = vec![0; i];
        for (j, x) in buf.iter_mut().enumerate() {
            *x = (j % 10) as u8 + b'a';
        }
        roundtrip(&buf);
        i += 23;
    }
}

#[test]
fn err_varint1() {
    errored(&b"\xFF"[..], Error::Corrupt);
}

#[test]
fn err_varint2() {
    errored(
        &b"\xff\xff\xff\xff\xff\xff\xff\xff\xff\xff\x00"[..],
        Error::Corrupt,
    );
}

#[test]
fn err_varint3() {
    errored(
        &b"\x80\x80\x80\x80\x10"[..],
        Error::TooBig {
            given: 4294967296,
            max: 4294967295,
        },
    );
}

#[test]
fn err_empty_input() {
    errored(&[], Error::Corrupt);
}

#[test]
fn err_overlong_varint() {
    // Six groups, the last of which terminates: one group too many.
    errored(&b"\x80\x80\x80\x80\x80\x01"[..], Error::Corrupt);
}

#[test]
fn largest_length_is_accepted_by_decompress_len() {
    assert_eq!(Ok(4294967295), decompress_len(&b"\xff\xff\xff\xff\x0f"[..]));
}

#[test]
fn random1_roundtrip() {
    roundtrip(&[
        0, 0, 0, 0, 1, 0, 0, 0, 2, 0, 0, 0, 3, 0, 0, 0, 4, 0, 0, 0, 5, 0, 0, 1, 1, 0, 0, 1, 2,
        0, 0, 2, 1, 0, 0, 2, 2, 0, 0, 0, 6, 0, 0, 3, 1, 0, 0, 0, 7, 0, 0, 1, 3, 0, 0, 0, 8, 0,
        0, 2, 3, 0, 0, 0, 9, 0, 0, 1, 4, 0, 0, 1, 0, 0, 3, 0, 0, 1, 0, 1, 0, 0, 0, 10, 0, 0, 0,
        0, 2, 4, 0, 0, 2, 0, 0, 3, 0, 1, 0, 0, 1, 5, 0, 0, 6, 0, 0, 0, 0, 11, 0, 0, 1, 6, 0, 0,
        1, 7, 0, 0, 0, 12, 0, 0, 3, 2, 0, 0, 0, 13, 0, 0, 2, 5, 0, 0, 0, 3, 3, 0, 0, 0, 1, 8,
        0, 0, 1, 0, 1, 0, 0, 0, 4, 1, 0, 0, 0, 0, 14, 0, 0, 0, 1, 9, 0, 0, 0, 1, 10, 0, 0, 0,
        0, 1, 11, 0, 0, 0, 1, 0, 2, 0, 0, 0, 1, 1, 1, 0, 0, 0, 0, 5, 1, 0, 0, 0, 1, 2, 1, 0, 0,
        0, 0, 0, 2, 6, 0, 0, 0, 0, 0, 1, 12, 0, 0, 0, 0, 0, 3, 4, 0, 0, 0, 0, 0, 7, 0, 0, 0, 0,
        0, 1, 0, 3, 0, 0, 0, 0, 0, 0, 0, 0, 0, 0, 0, 0, 0, 0, 0, 0, 0, 0, 0, 0, 0, 0, 0,
    ]);
}

#[test]
fn random2_roundtrip() {
    roundtrip(&[
        10, 2, 14, 13, 0, 8, 2, 10, 2, 14, 13, 0, 0, 0, 0, 0, 0, 0, 0, 0, 0, 0, 0,
    ]);
}

#[test]
fn random3_roundtrip() {
    roundtrip(&[
        0, 0, 0, 4, 1, 4, 0, 0, 0, 4, 0, 0, 0, 0, 0, 0, 0, 0, 0, 0, 0, 0,
    ]);
}

#[test]
fn random4_roundtrip() {
    roundtrip(&[
        0, 0, 0, 0, 1, 0, 0, 0, 2, 0, 0, 0, 3, 0, 0, 0, 4, 0, 0, 0, 5, 0, 0, 1, 1, 0, 0, 1, 2,
        0, 0, 1, 3, 0, 0, 1, 4, 0, 0, 2, 1, 0, 0, 0, 4, 0, 1, 0, 0, 0, 0, 0, 0, 0, 0, 0, 0, 0,
        0, 0,
    ]);
}

#[test]
fn qc_roundtrip() {
    QuickCheck::new()
        .gen(StdGen::new(rand::thread_rng(), 10_000))
        .tests(1_000)
        .quickcheck(roundtrips as fn(_) -> _);
}

#[test]
fn self_overlapping_copy() {
    // Length 8; the literal "a"; then a copy of 7 bytes from 1 byte back.
    let block = [0x08, 0x00, b'a', 0x0D, 0x01];
    assert_eq!(Ok(8), decompress_len(&block));
    assert_eq!(b"aaaaaaaa".to_vec(), depress(&block));
    let mut buf = vec![b'x'; 12];
    assert_eq!(Ok(8), Decoder::new().decompress(&block, &mut buf));
    assert_eq!(b"aaaaaaaaxxxx".to_vec(), buf);
}

#[test]
fn overlapping_copy_repeats_a_pattern() {
    // Length 10; the literal "ab"; then a copy of 8 bytes from 2 bytes back.
    let block = [0x0A, 0x04, b'a', b'b', 0x11, 0x02];
    assert_eq!(b"ababababab".to_vec(), depress(&block));
}

#[test]
fn copy_with_two_byte_offset() {
    // Length 8; the literal "abcd"; then a copy of 4 bytes from 4 back.
    let block = [0x08, 0x0C, b'a', b'b', b'c', b'd', 0x0E, 0x04, 0x00];
    assert_eq!(b"abcdabcd".to_vec(), depress(&block));
}

#[test]
fn copy_with_four_byte_offset() {
    let block = [0x08, 0x0C, b'a', b'b', b'c', b'd', 0x0F, 0x04, 0x00, 0x00, 0x00];
    assert_eq!(b"abcdabcd".to_vec(), depress(&block));
}

#[test]
fn literal_with_length_byte() {
    // A literal of 61 bytes needs one extra length byte.
    let mut block = vec![61, 0xF0, 60];
    let data: Vec<u8> = (0..61).collect();
    block.extend_from_slice(&data);
    assert_eq!(data, depress(&block));
}

#[test]
fn copy_offset_beyond_output_is_corrupt() {
    // One byte has been written; the copy reaches two bytes back.
    corrupt_body(&[0x08, 0x00, b'a', 0x0D, 0x02]);
    // Nothing has been written yet.
    corrupt_body(&[0x04, 0x01, 0x01]);
    // A four-byte offset far beyond anything written.
    corrupt_body(&[0x08, 0x0C, b'a', b'b', b'c', b'd', 0x0F, 0xFF, 0xFF, 0xFF, 0xFF]);
}

#[test]
fn copy_offset_zero_is_corrupt() {
    corrupt_body(&[0x08, 0x00, b'a', 0x0D, 0x00]);
}

#[test]
fn output_longer_than_declared_is_corrupt() {
    // Declares 4 bytes, then copies 7 after the literal.
    corrupt_body(&[0x04, 0x00, b'a', 0x0D, 0x01]);
    // Declares 1 byte, then holds a literal of 2.
    corrupt_body(&[0x01, 0x04, b'a', b'b']);
}

#[test]
fn output_shorter_than_declared_is_corrupt() {
    corrupt_body(&[0x08, 0x00, b'a']);
    corrupt_body(&[0x01]);
}

#[test]
fn trailing_bytes_are_corrupt() {
    corrupt_body(&[0x01, 0x00, b'a', 0x00, b'b']);
    corrupt_body(&[0x00, 0x00]);
}

#[test]
fn truncated_elements_are_corrupt() {
    // A literal that runs past the end of the input.
    corrupt_body(&[0x04, 0x0C, b'a', b'b']);
    // A literal whose length byte is missing.
    corrupt_body(&[0x04, 0xF0]);
    // Copies whose offset bytes are missing.
    corrupt_body(&[0x08, 0x00, b'a', 0x0D]);
    corrupt_body(&[0x08, 0x00, b'a', 0x0E, 0x01]);
    corrupt_body(&[0x08, 0x00, b'a', 0x0F, 0x01, 0x00, 0x00]);
}

#[test]
fn header_errors_come_before_body_errors() {
    let mut buf = vec![0; 16];
    assert_eq!(
        Err(Error::TooBig {
            given: 4294967296,
            max: 4294967295
        }),
        Decoder::new().decompress(&b"\x80\x80\x80\x80\x10\x00a"[..], &mut buf)
    );
    assert_eq!(
        Err(Error::TooBig {
            given: 4294967296,
            max: 4294967295
        }),
        Decoder::new().decompress_vec(&b"\x80\x80\x80\x80\x10"[..])
    );
    assert_eq!(Err(Error::Corrupt), Decoder::new().decompress_vec(&b"\xFF"[..]));
}

#[test]
fn max_compressed_len_values() {
    assert_eq!(32, max_compressed_len(0));
    assert_eq!(34, max_compressed_len(1));
    assert_eq!(39, max_compressed_len(6));
    assert_eq!(41, max_compressed_len(7));
    assert_eq!(32 + 65536 + 10923, max_compressed_len(65536));
    assert_eq!(32 + 4294967295 + 715827883, max_compressed_len(4294967295));
    assert_eq!(0, max_compressed_len(4294967296));
    assert_eq!(0, max_compressed_len(usize::MAX));
}

#[test]
fn compressed_length_is_within_the_bound() {
    let mut state: u32 = 12345;
    for len in [0usize, 1, 5, 16, 17, 18, 59, 60, 61, 255, 256, 257, 1000, 70_000, 140_000] {
        // Bytes without pattern, so that little can be copied.
        let data: Vec<u8> = (0..len)
            .map(|_| {
                state = state.wrapping_mul(1664525).wrapping_add(1013904223);
                (state >> 24) as u8
            })
            .collect();
        let out = press(&data);
        assert!(1 <= out.len() && out.len() <= max_compressed_len(len));
        assert_eq!(Ok(len), decompress_len(&out));
        assert_eq!(data, depress(&out));
    }
}

#[test]
fn repetitive_input_shrinks() {
    let data = vec![b'z'; 100_000];
    let out = press(&data);
    assert!(out.len() < data.len() / 10);
    assert_eq!(data, depress(&out));
}

#[test]
fn matches_do_not_cross_pieces() {
    // Two pieces; the second repeats the first.
    let mut data: Vec<u8> = (0..65536u32).map(|i| (i * 7 + i / 251) as u8).collect();
    let copy = data.clone();
    data.extend_from_slice(&copy);
    data.extend_from_slice(b"tail");
    roundtrip(&data);
}

#[test]
fn compress_leaves_the_rest_of_the_buffer() {
    let data = b"hello hello hello hello hello hello";
    let mut buf = vec![0xAA; max_compressed_len(data.len()) + 8];
    let n = compress(data, &mut buf).unwrap();
    assert!(buf[n..].iter().all(|&b| b == 0xAA));
    assert_eq!(data.to_vec(), depress(&buf[..n]));
}

#[test]
fn decoder_is_reusable() {
    let mut dec = Decoder::new();
    let a = press(b"first first first first");
    let b = press(b"second");
    assert_eq!(b"first first first first".to_vec(), dec.decompress_vec(&a).unwrap());
    assert_eq!(b"second".to_vec(), dec.decompress_vec(&b).unwrap());
    assert_eq!(Err(Error::Corrupt), dec.decompress_vec(&[0x05]));
    assert_eq!(b"second".to_vec(), dec.decompress_vec(&b).unwrap());
}

#[test]
fn huge_declared_length_with_small_body_is_corrupt() {
    // Declares 4294967295 bytes; a literal of one byte follows.
    let block = [0xFF, 0xFF, 0xFF, 0xFF, 0x0F, 0x00, b'a'];
    assert_eq!(Ok(4294967295), decompress_len(&block));
    assert_eq!(Err(Error::Corrupt), Decoder::new().decompress_vec(&block));
}
