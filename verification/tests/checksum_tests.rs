use nasbench::crc32c;
use nasbench::masked_crc32c;

#[test]
fn crc32c_known_answer() {
    // The standard check value of the Castagnoli polynomial.
    assert_eq!(crc32c(b"123456789"), 0xE306_9283);
}

#[test]
fn crc32c_empty_span() {
    assert_eq!(crc32c(b""), 0);
}

#[test]
fn masked_checksum_formula() {
    for data in [&b""[..], &b"a"[..], &b"123456789"[..], &b"hello world"[..]] {
        let crc = crc32c(data);
        let expected = crc.rotate_right(15).wrapping_add(0xA282_EAD8);
        assert_eq!(masked_crc32c(data), expected);
    }
}

#[test]
fn masked_checksum_deterministic_and_distinct() {
    let data = b"some record bytes";
    assert_eq!(masked_crc32c(data), masked_crc32c(data));
    assert_ne!(masked_crc32c(data), crc32c(data));
}

#[test]
fn crc32c_detects_byte_change() {
    let base = b"The quick brown fox jumps over the lazy dog".to_vec();
    let reference = crc32c(&base);
    for i in 0..base.len() {
        for bit in 0..8u8 {
            let mut corrupt = base.clone();
            corrupt[i] ^= 1 << bit;
            assert_ne!(crc32c(&corrupt), reference);
            assert_ne!(masked_crc32c(&corrupt), masked_crc32c(&base));
        }
    }
}
