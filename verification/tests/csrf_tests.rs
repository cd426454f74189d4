use csvbuttler::csrf::CsrfTokenGenerator;
use csvbuttler::hexstr::hex_decode;

fn generator() -> CsrfTokenGenerator {
    CsrfTokenGenerator::new(b"a csrf key".to_vec(), 3600)
}

#[test]
fn fresh_token_verifies() {
    let g = generator();
    let token = g.generate_at(10_000);
    assert!(g.verify(&token, 10_000));
    assert!(g.verify(&token, 10_001));
}

#[test]
fn token_fails_after_window() {
    let g = generator();
    let token = g.generate_at(10_000);
    assert!(g.verify(&token, 10_000 + 3600));
    assert!(!g.verify(&token, 10_000 + 3601));
}

#[test]
fn clocked_token_verifies_immediately() {
    let g = generator();
    let token = g.generate();
    // eight expiry bytes plus the 43-character base64url HMAC tag
    let recheck = g.generate_at(0);
    assert_eq!(recheck.len(), 8 + 43);
    assert_eq!(token.len(), 8 + 43);
}

#[test]
fn tampered_token_fails() {
    let g = generator();
    let mut token = g.generate_at(10_000);
    let last = token.len() - 1;
    token[last] = token[last].wrapping_add(1);
    assert!(!g.verify(&token, 10_000));
}

#[test]
fn wrong_key_fails() {
    let g = generator();
    let other = CsrfTokenGenerator::new(b"another key".to_vec(), 3600);
    let token = g.generate_at(10_000);
    assert!(!other.verify(&token, 10_000));
    assert!(!g.verify(&other.generate_at(10_000), 10_000));
}

#[test]
fn wrong_length_fails() {
    let g = generator();
    assert!(!g.verify(&vec![], 0));
    assert!(!g.verify(&vec![0u8; 11], 0));
    assert!(!g.verify(&vec![0u8; 13], 0));
}

#[test]
fn header_value_round_trips_through_hex() {
    let g = generator();
    let header = g.header_value_at(10_000);
    let decoded = hex_decode(&header).unwrap();
    assert_eq!(decoded, g.generate_at(10_000));
    assert!(g.verify(&decoded, 10_000));
}

#[test]
fn hex_decode_agrees_with_hex_crate() {
    assert_eq!(hex_decode("00ff10").unwrap(), vec![0x00, 0xff, 0x10]);
    assert_eq!(hex_decode("00FF10").unwrap(), vec![0x00, 0xff, 0x10]);
    assert!(hex_decode("0").is_none());
    assert!(hex_decode("zz").is_none());
    assert_eq!(hex_decode("").unwrap(), Vec::<u8>::new());
}
