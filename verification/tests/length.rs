use zexpr::length::decode_length;
use zexpr::length::encode_length;
use zexpr::number_of_bytes;

#[test]
fn number_of_bytes_known_values() {
    assert_eq!(number_of_bytes(0), 1);
    assert_eq!(number_of_bytes(1), 1);
    assert_eq!(number_of_bytes(255), 1);
    assert_eq!(number_of_bytes(256), 2);
    assert_eq!(number_of_bytes(65535), 2);
    assert_eq!(number_of_bytes(65536), 3);
    assert_eq!(number_of_bytes((1 << 24) - 1), 3);
    assert_eq!(number_of_bytes(1 << 24), 4);
    assert_eq!(number_of_bytes((1 << 32) - 1), 4);
    assert_eq!(number_of_bytes(1 << 32), 5);
    assert_eq!(number_of_bytes(1 << 40), 6);
    assert_eq!(number_of_bytes(1 << 48), 7);
    assert_eq!(number_of_bytes((1 << 56) - 1), 7);
    assert_eq!(number_of_bytes(1 << 56), 8);
    assert_eq!(number_of_bytes(u64::MAX), 8);
}

#[test]
fn number_of_bytes_is_the_least_that_holds_the_number() {
    let mut x: u64 = 1;
    for _ in 0..200 {
        x = x.wrapping_mul(6364136223846793005).wrapping_add(1442695040888963407);
        for shift in 0..64u32 {
            let v = x >> shift;
            let n = number_of_bytes(v) as u32;
            assert!(1 <= n && n <= 8);
            if n < 8 {
                assert!(v < 1u64 << (8 * n));
            }
            if n > 1 {
                assert!(v >= 1u64 << (8 * (n - 1)));
            }
        }
    }
}

#[test]
fn encode_length_known_values() {
    assert_eq!(encode_length(0), vec![0]);
    assert_eq!(encode_length(1), vec![1]);
    assert_eq!(encode_length(255), vec![255]);
    assert_eq!(encode_length(256), vec![1, 0]);
    assert_eq!(encode_length(0x0102_0304), vec![1, 2, 3, 4]);
    assert_eq!(encode_length(u64::MAX), vec![255; 8]);
    assert_eq!(encode_length(1 << 56), vec![1, 0, 0, 0, 0, 0, 0, 0]);
}

#[test]
fn decode_length_known_values() {
    assert_eq!(decode_length(&[]), 0);
    assert_eq!(decode_length(&[0]), 0);
    assert_eq!(decode_length(&[1, 0]), 256);
    assert_eq!(decode_length(&[0, 0, 1, 0]), 256);
    assert_eq!(decode_length(&[1, 2, 3, 4]), 0x0102_0304);
    assert_eq!(decode_length(&[255; 8]), u64::MAX);
}

#[test]
fn length_fields_read_back() {
    let mut x: u64 = 7;
    for _ in 0..200 {
        x = x.wrapping_mul(6364136223846793005).wrapping_add(1442695040888963407);
        for shift in 0..64u32 {
            let v = x >> shift;
            let field = encode_length(v);
            assert_eq!(field.len(), number_of_bytes(v) as usize);
            assert_eq!(decode_length(&field), v);
        }
    }
}
