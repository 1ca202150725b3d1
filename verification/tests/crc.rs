use lzma_rust2::crc::{crc32_by_eight, crc32_byte, crc64_by_eight, crc64_byte, Crc32, Crc64};

const SIMPLE_DATA: &[u8] = &[1, 2, 3, 7, 16, 31, 64, 255];

#[test]
fn crc32_empty() {
    assert_eq!(Crc32::checksum(&[]), 0);
}

#[test]
fn crc64_empty() {
    assert_eq!(Crc64::checksum(&[]), 0);
}

#[test]
fn crc32_simple_data() {
    assert_eq!(Crc32::checksum(SIMPLE_DATA), 2428203834);
}

#[test]
fn crc64_simple_data() {
    assert_eq!(Crc64::checksum(SIMPLE_DATA), 11721292222009571391);
}

/// A few hundred bytes of a simple generator, taken in pieces of every
/// length and alignment, against the byte at a time method.
fn pieces() -> Vec<u8> {
    let mut state = 0x2545F491u32;
    (0..300)
        .map(|_| {
            state ^= state << 13;
            state ^= state >> 17;
            state ^= state << 5;
            (state >> 24) as u8
        })
        .collect()
}

#[test]
fn crc32_matches_the_byte_at_a_time_method() {
    let data = pieces();
    for start in 0..16 {
        for len in 0..40 {
            let piece = &data[start..start + len];
            let expected = piece.iter().fold(0xFFFFFFFF, |crc, &b| crc32_byte(crc, b));
            assert_eq!(crc32_by_eight(0xFFFFFFFF, piece), expected, "{start} {len}");
            assert_eq!(
                Crc32::checksum(piece),
                expected ^ 0xFFFFFFFF,
                "{start} {len}"
            );
        }
    }
    let whole = data.iter().fold(0xFFFFFFFF, |crc, &b| crc32_byte(crc, b));
    assert_eq!(Crc32::checksum(&data), whole ^ 0xFFFFFFFF);
    // In two pieces, the state carried across.
    let mut crc = Crc32::new();
    crc.update(&data[..131]);
    crc.update(&data[131..]);
    assert_eq!(crc.finalize(), whole ^ 0xFFFFFFFF);
}

#[test]
fn crc64_matches_the_byte_at_a_time_method() {
    let data = pieces();
    for start in 0..16 {
        for len in 0..40 {
            let piece = &data[start..start + len];
            let expected = piece
                .iter()
                .fold(0xFFFFFFFFFFFFFFFF, |crc, &b| crc64_byte(crc, b));
            assert_eq!(
                crc64_by_eight(0xFFFFFFFFFFFFFFFF, piece),
                expected,
                "{start} {len}"
            );
        }
    }
    let whole = data
        .iter()
        .fold(0xFFFFFFFFFFFFFFFF, |crc, &b| crc64_byte(crc, b));
    let mut crc = Crc64::new();
    crc.update(&data[..131]);
    crc.update(&data[131..]);
    assert_eq!(crc.finalize(), whole ^ 0xFFFFFFFFFFFFFFFF);
}

/// The check values that the two checksums are catalogued under.
#[test]
fn check_values() {
    assert_eq!(Crc32::checksum(b"123456789"), 0xCBF43926);
    assert_eq!(Crc64::checksum(b"123456789"), 0x995DC9BBDF1939FA);
}
