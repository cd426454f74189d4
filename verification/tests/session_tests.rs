use csvbuttler::csrf::CsrfTokenGenerator;
use csvbuttler::error::Error;
use csvbuttler::jwt::create_token_at;
use csvbuttler::user::{AuthUser, SlimUser};

const JWT_SECRET: &[u8] = b"a jwt secret";
const NOW: u64 = 1_700_000_000;

fn generator() -> CsrfTokenGenerator {
    CsrfTokenGenerator::new(b"a csrf key".to_vec(), 3600)
}

fn valid_csrf_header(g: &CsrfTokenGenerator) -> String {
    g.header_value_at(NOW)
}

fn valid_cookie() -> String {
    create_token_at("foo@bar.com", "Foo Inc.", JWT_SECRET, NOW).unwrap()
}

#[test]
fn happy_path_authorizes() {
    let g = generator();
    let header = valid_csrf_header(&g);
    let cookie = valid_cookie();
    let user =
        SlimUser::from_request(&g, Some(&header), Some(&cookie), JWT_SECRET, NOW + 10).unwrap();
    assert_eq!(user.email, "foo@bar.com");
    assert_eq!(user.company, "Foo Inc.");
}

#[test]
fn missing_csrf_header_rejected_despite_valid_session() {
    let g = generator();
    let cookie = valid_cookie();
    match SlimUser::from_request(&g, None, Some(&cookie), JWT_SECRET, NOW + 10) {
        Err(Error::Unauthorized) => {}
        other => panic!("expected Unauthorized, got {:?}", other),
    }
}

#[test]
fn missing_csrf_header_maps_to_401() {
    let g = generator();
    let cookie = valid_cookie();
    let err = SlimUser::from_request(&g, None, Some(&cookie), JWT_SECRET, NOW + 10).unwrap_err();
    let (status, body) = err.error_response();
    assert_eq!(status, 401);
    assert_eq!(body, "Unauthorized");
}

#[test]
fn malformed_csrf_header_is_internal_error() {
    let g = generator();
    let cookie = valid_cookie();
    let bad = "not hex at all".to_string();
    match SlimUser::from_request(&g, Some(&bad), Some(&cookie), JWT_SECRET, NOW + 10) {
        Err(Error::InternalServerError) => {}
        other => panic!("expected InternalServerError, got {:?}", other),
    }
}

#[test]
fn foreign_csrf_token_rejected() {
    let g = generator();
    let other_gen = CsrfTokenGenerator::new(b"another key".to_vec(), 3600);
    let header = other_gen.header_value_at(NOW);
    let cookie = valid_cookie();
    match SlimUser::from_request(&g, Some(&header), Some(&cookie), JWT_SECRET, NOW + 10) {
        Err(Error::Unauthorized) => {}
        other => panic!("expected Unauthorized, got {:?}", other),
    }
}

#[test]
fn expired_csrf_token_rejected() {
    let g = generator();
    let header = valid_csrf_header(&g);
    let cookie = valid_cookie();
    match SlimUser::from_request(&g, Some(&header), Some(&cookie), JWT_SECRET, NOW + 3601) {
        Err(Error::Unauthorized) => {}
        other => panic!("expected Unauthorized, got {:?}", other),
    }
}

#[test]
fn missing_identity_cookie_rejected() {
    let g = generator();
    let header = valid_csrf_header(&g);
    match SlimUser::from_request(&g, Some(&header), None, JWT_SECRET, NOW + 10) {
        Err(Error::Unauthorized) => {}
        other => panic!("expected Unauthorized, got {:?}", other),
    }
}

#[test]
fn expired_session_rejected() {
    let g = CsrfTokenGenerator::new(b"a csrf key".to_vec(), 200_000);
    let header = g.header_value_at(NOW + 86_401);
    let cookie = valid_cookie();
    match SlimUser::from_request(&g, Some(&header), Some(&cookie), JWT_SECRET, NOW + 86_401) {
        Err(Error::Unauthorized) => {}
        other => panic!("expected Unauthorized, got {:?}", other),
    }
}

#[test]
fn login_stub_returns_fixed_user() {
    let auth = AuthUser { email: "whoever@example.com".to_string(), password: "anything".to_string() };
    let user = auth.login().unwrap();
    assert_eq!(user.email, "foo@bar.com");
    assert_eq!(user.company, "Foo Inc.");
}

#[test]
fn error_responses_carry_the_right_status() {
    assert_eq!(Error::Unauthorized.error_response().0, 401);
    let (code, body) = Error::BadRequest("bad id".to_string()).error_response();
    assert_eq!(code, 400);
    assert_eq!(body, "bad id");
    assert_eq!(Error::InternalServerError.error_response().0, 500);
    assert_eq!(Error::Io("gone".to_string()).error_response().0, 500);
    assert_eq!(Error::Other("x".to_string()).error_response().0, 500);
    assert_eq!(Error::Reqwest("x".to_string()).error_response().0, 500);
    assert_eq!(Error::ConfigError("x".to_string()).error_response().0, 500);
    assert_eq!(Error::VarError("x".to_string()).error_response().0, 500);
    assert_eq!(
        Error::InternalServerError.error_response().1,
        "Internal Server Error, Please try later"
    );
}

#[test]
fn error_messages() {
    assert_eq!(Error::Unauthorized.message(), "Unauthorized");
    assert_eq!(Error::InternalServerError.message(), "InternalServerError");
    assert_eq!(Error::Io("io says no".to_string()).message(), "io says no");
}

#[test]
fn claims_carry_a_one_day_expiry() {
    let claims = csvbuttler::jwt::Claims::with_email("foo@bar.com", "Foo Inc.", NOW);
    assert_eq!(claims.sub, "foo@bar.com");
    assert_eq!(claims.company, "Foo Inc.");
    assert_eq!(claims.exp, NOW + 86_400);
    let user = SlimUser::from(claims);
    assert_eq!(user.email, "foo@bar.com");
    assert_eq!(user.company, "Foo Inc.");
}
