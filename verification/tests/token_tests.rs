use csvbuttler::error::Error;
use csvbuttler::jwt::{create_token, create_token_at, decode_token, decode_token_at};

const SECRET: &[u8] = b"a jwt secret";

#[test]
fn round_trip_before_expiry() {
    let token = create_token_at("foo@bar.com", "Foo Inc.", SECRET, 1_700_000_000).unwrap();
    let user = decode_token_at(&token, SECRET, 1_700_000_100).unwrap();
    assert_eq!(user.email, "foo@bar.com");
    assert_eq!(user.company, "Foo Inc.");
}

#[test]
fn round_trip_at_the_last_second() {
    let token = create_token_at("a@b.c", "ACME", SECRET, 1_000).unwrap();
    let user = decode_token_at(&token, SECRET, 1_000 + 86_400).unwrap();
    assert_eq!(user.email, "a@b.c");
}

#[test]
fn expired_token_is_unauthorized() {
    let token = create_token_at("a@b.c", "ACME", SECRET, 1_000).unwrap();
    match decode_token_at(&token, SECRET, 1_000 + 86_401) {
        Err(Error::Unauthorized) => {}
        other => panic!("expected Unauthorized, got {:?}", other),
    }
}

#[test]
fn wrong_secret_is_unauthorized() {
    let token = create_token_at("a@b.c", "ACME", SECRET, 1_000).unwrap();
    match decode_token_at(&token, b"another secret", 1_100) {
        Err(Error::Unauthorized) => {}
        other => panic!("expected Unauthorized, got {:?}", other),
    }
}

#[test]
fn tampered_token_is_unauthorized() {
    let token = create_token_at("a@b.c", "ACME", SECRET, 1_000).unwrap();
    let mut tampered = token.clone();
    // flip the last signature character
    let last = tampered.pop().unwrap();
    tampered.push(if last == 'A' { 'B' } else { 'A' });
    assert!(decode_token_at(&tampered, SECRET, 1_100).is_err());
}

#[test]
fn garbage_token_is_unauthorized() {
    assert!(decode_token_at("not-a-token", SECRET, 1_100).is_err());
    assert!(decode_token_at("", SECRET, 1_100).is_err());
    assert!(decode_token_at("a.b.c.d", SECRET, 1_100).is_err());
}

#[test]
fn escaped_claims_round_trip() {
    let email = "quote\"back\\slash@x.y";
    let company = "Line\nBreak \u{1F600} Co";
    let token = create_token_at(email, company, SECRET, 2_000).unwrap();
    let user = decode_token_at(&token, SECRET, 2_100).unwrap();
    assert_eq!(user.email, email);
    assert_eq!(user.company, company);
}

#[test]
fn clocked_round_trip() {
    let token = create_token("foo@bar.com", "Foo Inc.", SECRET).unwrap();
    let user = decode_token(&token, SECRET).unwrap();
    assert_eq!(user.email, "foo@bar.com");
    assert_eq!(user.company, "Foo Inc.");
}

#[test]
fn token_is_accepted_by_jsonwebtoken() {
    let token = create_token_at("foo@bar.com", "Foo Inc.", SECRET, 1_700_000_000).unwrap();
    let key = jsonwebtoken::DecodingKey::from_secret(SECRET);
    let mut validation = jsonwebtoken::Validation::new(jsonwebtoken::Algorithm::HS256);
    validation.validate_exp = false;
    let data =
        jsonwebtoken::decode::<serde_json::Value>(&token, &key, &validation).unwrap();
    assert_eq!(data.claims.get("sub").unwrap().as_str().unwrap(), "foo@bar.com");
    assert_eq!(data.claims.get("company").unwrap().as_str().unwrap(), "Foo Inc.");
    assert_eq!(
        data.claims.get("exp").unwrap().as_u64().unwrap(),
        1_700_000_000 + 86_400
    );
    assert_eq!(data.header.alg, jsonwebtoken::Algorithm::HS256);
}

#[test]
fn jsonwebtoken_rejects_wrong_key_too() {
    let token = create_token_at("foo@bar.com", "Foo Inc.", SECRET, 1_700_000_000).unwrap();
    let key = jsonwebtoken::DecodingKey::from_secret(b"another secret");
    let mut validation = jsonwebtoken::Validation::new(jsonwebtoken::Algorithm::HS256);
    validation.validate_exp = false;
    assert!(jsonwebtoken::decode::<serde_json::Value>(&token, &key, &validation).is_err());
}
