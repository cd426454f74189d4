//! Users: the login stub, the slim authenticated-user value, and the
//! per-request session extraction that guards protected handlers.

use crate::csrf::{csrf_valid, CsrfTokenGenerator};
use crate::error::Error;
use crate::hexstr::{hex_bytes_of, hex_decode, valid_hex};
use crate::jwt::{decode_token_at, issued_token, token_for, Claims};
use vstd::prelude::*;

verus! {

/// The authenticated identity carried through a request: what a verified
/// session token proves.
#[derive(Debug)]
pub struct SlimUser {
    pub email: String,
    pub company: String,
}

impl From<Claims> for SlimUser {
    fn from(claims: Claims) -> (r: SlimUser) {
        SlimUser { email: claims.sub, company: claims.company }
    }
}

impl vstd::std_specs::convert::FromSpecImpl<Claims> for SlimUser {
    open spec fn obeys_from_spec() -> bool {
        true
    }

    open spec fn from_spec(claims: Claims) -> Self {
        SlimUser { email: claims.sub, company: claims.company }
    }
}

/// The credentials a login request carries.
#[derive(Debug)]
pub struct AuthUser {
    pub email: String,
    pub password: String,
}

impl AuthUser {
    /// The login step is a stub for demonstration: any credentials are
    /// accepted and a fixed user is returned.
    pub fn login(&self) -> (r: Result<SlimUser, Error>)
        ensures
            r matches Ok(u) && u.email@ == "foo@bar.com"@ && u.company@ == "Foo Inc."@,
    {
        let email = "foo@bar.com".to_owned();
        let company = "Foo Inc.".to_owned();
        Ok(SlimUser { email, company })
    }
}

impl SlimUser {
    /// The session extraction that protects a handler, from plain request
    /// values: the `x-csrf-token` header (if the request had one) and the
    /// identity cookie (if the request had one).
    ///
    /// Both checks are mandatory, in this order: a missing CSRF header is
    /// rejected even when the session cookie alone would be valid; a
    /// malformed (non-hex) header is an internal error; a CSRF token the
    /// generator rejects, a missing cookie, and an invalid or expired
    /// session token are all rejected as unauthorized.
    pub fn from_request(
        generator: &CsrfTokenGenerator,
        csrf_header: Option<&String>,
        identity: Option<&String>,
        jwt_secret: &[u8],
        now: u64,
    ) -> (r: Result<SlimUser, Error>)
        ensures
            csrf_header is None ==> (r matches Err(e) && e is Unauthorized),
            (csrf_header matches Some(h) && !valid_hex(h@)) ==> (r matches Err(e)
                && e is InternalServerError),
            (csrf_header matches Some(h) && valid_hex(h@) && !csrf_valid(
                generator.secret@,
                hex_bytes_of(h@),
                now,
            )) ==> (r matches Err(e) && e is Unauthorized),
            (csrf_header matches Some(h) && valid_hex(h@) && csrf_valid(
                generator.secret@,
                hex_bytes_of(h@),
                now,
            ) && identity is None) ==> (r matches Err(e) && e is Unauthorized),
            r matches Ok(u) ==> ({
                &&& csrf_header matches Some(h)
                &&& valid_hex(h@)
                &&& csrf_valid(generator.secret@, hex_bytes_of(h@), now)
                &&& identity matches Some(t)
                &&& issued_token(t@, u.company@, u.email@, jwt_secret@, now)
            }),
            forall|company: Seq<char>, sub: Seq<char>, exp: u64|
                ({
                    &&& csrf_header matches Some(h)
                    &&& valid_hex(h@)
                    &&& csrf_valid(generator.secret@, hex_bytes_of(h@), now)
                    &&& identity matches Some(t)
                    &&& #[trigger] token_for(company, sub, exp, jwt_secret@) == t@
                    &&& exp >= now
                }) ==> (r matches Ok(u) && u.company@ == company && u.email@ == sub),
            r matches Err(e) ==> (e is Unauthorized || e is InternalServerError),
    {
        let header = match csrf_header {
            Some(h) => h,
            None => {
                return Err(Error::Unauthorized);
            },
        };
        let decoded_token = match hex_decode(header.as_str()) {
            Some(b) => b,
            None => {
                return Err(Error::InternalServerError);
            },
        };
        if !generator.verify(&decoded_token, now) {
            return Err(Error::Unauthorized);
        }
        let token = match identity {
            Some(t) => t,
            None => {
                return Err(Error::Unauthorized);
            },
        };
        decode_token_at(token.as_str(), jwt_secret, now)
    }
}

} // verus!
