use ca_he_core::hex::{decode_hex, hex_decodable_input};

fn decode(s: &str) -> Option<Vec<u8>> {
    assert!(hex_decodable_input(s.as_bytes()));
    decode_hex(s.as_bytes())
}

#[test]
fn plain_and_prefixed_hex() {
    assert_eq!(decode("0a1B"), Some(vec![0x0a, 0x1b]));
    assert_eq!(decode("0x0a1B"), Some(vec![0x0a, 0x1b]));
    assert_eq!(decode("0XFF00"), Some(vec![0xff, 0x00]));
    assert_eq!(decode(""), Some(vec![]));
    assert_eq!(decode("0x"), Some(vec![]));
}

#[test]
fn sign_before_one_digit_is_read() {
    assert_eq!(decode("+f10"), Some(vec![0x0f, 0x10]));
}

#[test]
fn bad_pairs_give_none() {
    assert_eq!(decode("zz"), None);
    assert_eq!(decode("1g"), None);
    assert_eq!(decode("-1"), None);
    assert_eq!(decode("0x0x"), None);
    // The bad pair comes before the odd tail, so decoding stops there.
    assert_eq!(decode("zz1"), None);
}

#[test]
fn odd_tail_after_good_pairs_cannot_be_decoded() {
    assert!(!hex_decodable_input(b"abc"));
    assert!(!hex_decodable_input(b"0x1"));
    assert!(hex_decodable_input(b"ab"));
}

#[test]
fn seed_of_32_bytes() {
    let s = "0x000102030405060708090a0b0c0d0e0f101112131415161718191a1b1c1d1e1f";
    let v = decode(s).unwrap();
    assert_eq!(v, (0u8..32).collect::<Vec<u8>>());
}
