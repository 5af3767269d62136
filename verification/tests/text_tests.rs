use rust_blockchain::text::{hex_digit, push_bytes, push_decimal, to_hex};

#[test]
fn hex_of_bytes() {
    assert_eq!(to_hex(&[10, 20, 30]), "0a141e");
    assert_eq!(to_hex(&[]), "");
    assert_eq!(to_hex(&[0, 255, 16]), "00ff10");
}

#[test]
fn hex_digits() {
    assert_eq!(hex_digit(0), "0");
    assert_eq!(hex_digit(9), "9");
    assert_eq!(hex_digit(10), "a");
    assert_eq!(hex_digit(15), "f");
}

#[test]
fn decimal_of_numbers() {
    let mut v = b"n=".to_vec();
    push_decimal(&mut v, 0);
    assert_eq!(v, b"n=0");
    let mut v = Vec::new();
    push_decimal(&mut v, 1234567890);
    assert_eq!(v, b"1234567890");
    let mut v = Vec::new();
    push_decimal(&mut v, u64::MAX);
    assert_eq!(v, u64::MAX.to_string().into_bytes());
    assert_eq!(v, serde_json::to_string(&u64::MAX).unwrap().into_bytes());
}

#[test]
fn bytes_are_appended() {
    let mut v = vec![1u8];
    push_bytes(&mut v, &[2, 3]);
    push_bytes(&mut v, &[]);
    assert_eq!(v, vec![1, 2, 3]);
}
