//! The session token service: issuing and verifying signed, time-bounded
//! claims.
//!
//! A token is the standard three-part form `header.payload.signature`:
//! the base64url (unpadded) JSON header, the base64url canonical claims
//! JSON `{"company":..,"sub":..,"exp":..}`, and the base64url HMAC-SHA256
//! tag of the first two parts under the server secret. The framing —
//! base64url, the claims JSON, the expiry check — is built and checked by
//! verified code; only the HMAC itself is computed by the `jsonwebtoken`
//! crate behind a trusted boundary. Verification accepts exactly the
//! tokens this module issues: correctly signed, canonically encoded, and
//! not yet expired.

use crate::b64::{
    b64url_decode, b64url_decode_spec, b64url_encode, b64url_of, lemma_b64url_decode_canonical,
    lemma_b64url_of_chars, lemma_b64url_round_trip,
};
use crate::clock::now_unix_seconds;
use crate::error::Error;
use crate::jsontext::{
    append_escaped, esc_str, lemma_scan_string_complete, lemma_scan_string_sound, scan_string,
    scan_string_exec,
};
use crate::strutil::{
    append_str_chars, chars_eq, chars_to_string, dec_chars_of, dec_value, has_no_char,
    is_dec_digits, join_on, lemma_canonical_dec_unique, lemma_dec_chars_len,
    lemma_dec_chars_no_leading_zero, lemma_dec_chars_of_value, lemma_join_split,
    lemma_split_on_parts, match_lit, parse_u64, split_chars, split_on, str_chars,
    u64_to_dec_chars,
};
use crate::user::SlimUser;
use vstd::prelude::*;
use vstd::utf8::{
    decode_utf8, decode_utf8_encode_utf8, encode_utf8, encode_utf8_decode_utf8,
    encode_utf8_valid_utf8, valid_utf8,
};

verus! {

/// The HMAC-SHA256 tag of `message` under `key`: a fixed function of the
/// two, computed only by the signing primitive.
pub uninterp spec fn hs256_mac(message: Seq<u8>, key: Seq<u8>) -> Seq<u8>;

/// Relies on `jsonwebtoken::crypto::sign` with `Algorithm::HS256` and a
/// plain-secret key: the result is the unpadded URL-safe base64 of the
/// HMAC-SHA256 tag of the message, a function of message and key alone.
/// For this algorithm the call cannot fail: an HMAC accepts keys of any
/// length, so the signer factory and the signer itself always succeed.
/// Shared by the token service and the CSRF token service.
#[verifier::external_body]
pub(crate) fn hs256_sign_b64(message: &str, key: &[u8]) -> (r: Result<String, Error>)
    ensures
        r is Ok,
        r matches Ok(s) ==> s@ == b64url_of(hs256_mac(encode_utf8(message@), key@)),
{
    jsonwebtoken::crypto::sign(
        message.as_bytes(),
        &jsonwebtoken::EncodingKey::from_secret(key),
        jsonwebtoken::Algorithm::HS256,
    ).map_err(|e| Error::Other(e.to_string()))
}

/// Relies on `String::from_utf8`: succeeds exactly on valid UTF-8 and
/// decodes the bytes to the characters they encode (the reading that
/// `vstd`'s UTF-8 model gives them).
#[verifier::external_body]
fn string_from_utf8(bytes: Vec<u8>) -> (r: Option<String>)
    ensures
        match r {
            Some(s) => valid_utf8(bytes@) && s@ == decode_utf8(bytes@),
            None => !valid_utf8(bytes@),
        },
{
    match String::from_utf8(bytes) {
        Ok(s) => Some(s),
        Err(_) => None,
    }
}

/// The expiry a token issued at `now` carries: one day later.
pub open spec fn token_expiry_at(now: u64) -> u64 {
    if now + 86400 <= u64::MAX {
        (now + 86400) as u64
    } else {
        u64::MAX
    }
}

/// The signed payload of a session: who, for which company, until when.
#[derive(Debug)]
pub struct Claims {
    pub company: String,
    pub sub: String,
    pub exp: u64,
}

impl Claims {
    /// The claims issued to `email` at time `now`: valid for one day.
    pub fn with_email(email: &str, company: &str, now: u64) -> (r: Claims)
        ensures
            r.company@ == company@,
            r.sub@ == email@,
            r.exp == token_expiry_at(now),
    {
        let exp: u64 = if now <= u64::MAX - 86400 {
            now + 86400
        } else {
            u64::MAX
        };
        Claims { company: company.to_owned(), sub: email.to_owned(), exp }
    }
}

/// The opening of the claims JSON, up to the company value.
pub open spec fn lit_company() -> Seq<char> {
    "{\"company\":\""@
}

/// The text between the company value and the subject value.
pub open spec fn lit_sub() -> Seq<char> {
    ",\"sub\":\""@
}

/// The text between the subject value and the expiry number.
pub open spec fn lit_exp() -> Seq<char> {
    ",\"exp\":"@
}

/// The fixed token header.
pub open spec fn header_json() -> Seq<char> {
    "{\"typ\":\"JWT\",\"alg\":\"HS256\"}"@
}

/// The canonical claims JSON for a company, subject and expiry.
pub open spec fn claims_json(company: Seq<char>, sub: Seq<char>, exp: u64) -> Seq<char> {
    lit_company() + esc_str(company) + seq!['"'] + lit_sub() + esc_str(sub) + seq!['"'] + lit_exp()
        + dec_chars_of(exp as nat) + seq!['}']
}

/// The strict reading of a claims JSON text: `Some` exactly on the
/// canonical form, returning the company, subject and expiry it carries.
pub open spec fn parse_claims(s: Seq<char>) -> Option<(Seq<char>, Seq<char>, u64)> {
    if s.len() >= lit_company().len() && s.take(lit_company().len() as int) == lit_company() {
        match scan_string(s.skip(lit_company().len() as int)) {
            Some((company, r1)) => if r1.len() >= lit_sub().len() && r1.take(
                lit_sub().len() as int,
            ) == lit_sub() {
                match scan_string(r1.skip(lit_sub().len() as int)) {
                    Some((sub, r2)) => if r2.len() >= lit_exp().len() && r2.take(
                        lit_exp().len() as int,
                    ) == lit_exp() {
                        let tail = r2.skip(lit_exp().len() as int);
                        if tail.len() >= 2 && tail.last() == '}' {
                            let digits = tail.drop_last();
                            if is_dec_digits(digits) && (digits.len() == 1 || digits[0] != '0')
                                && dec_value(digits) <= u64::MAX {
                                Some((company, sub, dec_value(digits) as u64))
                            } else {
                                None
                            }
                        } else {
                            None
                        }
                    } else {
                        None
                    },
                    None => None,
                }
            } else {
                None
            },
            None => None,
        }
    } else {
        None
    }
}

/// Reading the canonical claims JSON gives the claims back.
pub proof fn lemma_parse_claims_json(company: Seq<char>, sub: Seq<char>, exp: u64)
    ensures
        parse_claims(claims_json(company, sub, exp)) == Some((company, sub, exp)),
{
    let s = claims_json(company, sub, exp);
    let r1 = lit_sub() + esc_str(sub) + seq!['"'] + lit_exp() + dec_chars_of(exp as nat)
        + seq!['}'];
    let r2 = lit_exp() + dec_chars_of(exp as nat) + seq!['}'];
    let tail = dec_chars_of(exp as nat) + seq!['}'];
    assert(s.take(lit_company().len() as int) =~= lit_company());
    assert(s.skip(lit_company().len() as int) =~= esc_str(company) + seq!['"'] + r1);
    lemma_scan_string_complete(company, r1);
    assert(r1.take(lit_sub().len() as int) =~= lit_sub());
    assert(r1.skip(lit_sub().len() as int) =~= esc_str(sub) + seq!['"'] + r2);
    lemma_scan_string_complete(sub, r2);
    assert(r2.take(lit_exp().len() as int) =~= lit_exp());
    assert(r2.skip(lit_exp().len() as int) =~= tail);
    lemma_dec_chars_of_value(exp as nat);
    lemma_dec_chars_len(exp as nat);
    lemma_dec_chars_no_leading_zero(exp as nat);
    assert(tail.last() == '}');
    assert(tail.drop_last() =~= dec_chars_of(exp as nat));
}

/// Only the canonical claims JSON is read back: a text the reader accepts
/// is the canonical form of what it returns.
#[verifier::rlimit(100)]
pub proof fn lemma_parse_claims_sound(s: Seq<char>)
    requires
        parse_claims(s) is Some,
    ensures
        s == claims_json(
            (parse_claims(s)->0).0,
            (parse_claims(s)->0).1,
            (parse_claims(s)->0).2,
        ),
{
    assert(s.len() >= lit_company().len() && s.take(lit_company().len() as int) == lit_company());
    let x1 = s.skip(lit_company().len() as int);
    assert(scan_string(x1) is Some);
    lemma_scan_string_sound(x1);
    let (company, r1) = scan_string(x1)->0;
    assert(r1.len() >= lit_sub().len() && r1.take(lit_sub().len() as int) == lit_sub());
    let x2 = r1.skip(lit_sub().len() as int);
    assert(scan_string(x2) is Some);
    lemma_scan_string_sound(x2);
    let (sub, r2) = scan_string(x2)->0;
    assert(r2.len() >= lit_exp().len() && r2.take(lit_exp().len() as int) == lit_exp());
    let tail = r2.skip(lit_exp().len() as int);
    assert(tail.len() >= 2 && tail.last() == '}');
    let digits = tail.drop_last();
    assert(is_dec_digits(digits) && (digits.len() == 1 || digits[0] != '0') && dec_value(digits)
        <= u64::MAX);
    lemma_canonical_dec_unique(digits);
    crate::strutil::lemma_dec_value_nonneg(digits);
    let e = dec_value(digits) as u64;
    assert(e as nat == dec_value(digits) as nat);
    assert(digits == dec_chars_of(e as nat));
    assert(parse_claims(s) == Some((company, sub, e)));
    assert(tail =~= dec_chars_of(e as nat) + seq!['}']);
    assert(r2 =~= lit_exp() + dec_chars_of(e as nat) + seq!['}']);
    assert(x2 =~= esc_str(sub) + seq!['"'] + r2);
    assert(r1 =~= lit_sub() + x2);
    assert(x1 =~= esc_str(company) + seq!['"'] + r1);
    assert(s =~= lit_company() + x1);
    assert(s =~= claims_json(company, sub, e));
}

/// The base64url of the fixed header.
pub open spec fn header_b64() -> Seq<char> {
    b64url_of(encode_utf8(header_json()))
}

/// The base64url of the claims JSON.
pub open spec fn payload_b64(company: Seq<char>, sub: Seq<char>, exp: u64) -> Seq<char> {
    b64url_of(encode_utf8(claims_json(company, sub, exp)))
}

/// The text that is signed: header and payload joined by a dot.
pub open spec fn signing_input(company: Seq<char>, sub: Seq<char>, exp: u64) -> Seq<char> {
    header_b64() + seq!['.'] + payload_b64(company, sub, exp)
}

/// The base64url of the signature over the signing input.
pub open spec fn sig_b64(company: Seq<char>, sub: Seq<char>, exp: u64, key: Seq<u8>) -> Seq<
    char,
> {
    b64url_of(hs256_mac(encode_utf8(signing_input(company, sub, exp)), key))
}

/// The complete session token for a company, subject, expiry and key.
pub open spec fn token_for(company: Seq<char>, sub: Seq<char>, exp: u64, key: Seq<u8>) -> Seq<
    char,
> {
    signing_input(company, sub, exp) + seq!['.'] + sig_b64(company, sub, exp, key)
}

/// A token splits on dots into exactly its three parts.
pub proof fn lemma_token_split(company: Seq<char>, sub: Seq<char>, exp: u64, key: Seq<u8>)
    ensures
        split_on(token_for(company, sub, exp, key), '.') == seq![
            header_b64(),
            payload_b64(company, sub, exp),
            sig_b64(company, sub, exp, key),
        ],
{
    let parts = seq![
        header_b64(),
        payload_b64(company, sub, exp),
        sig_b64(company, sub, exp, key),
    ];
    lemma_b64url_of_chars(encode_utf8(header_json()));
    lemma_b64url_of_chars(encode_utf8(claims_json(company, sub, exp)));
    lemma_b64url_of_chars(hs256_mac(encode_utf8(signing_input(company, sub, exp)), key));
    assert forall|i: int| 0 <= i < parts.len() implies has_no_char(#[trigger] parts[i], '.') by {
        assert(forall|j: int|
            0 <= j < header_b64().len() ==> #[trigger] header_b64()[j] != '.');
        assert(forall|j: int|
            0 <= j < payload_b64(company, sub, exp).len() ==> #[trigger] payload_b64(
                company,
                sub,
                exp,
            )[j] != '.');
        assert(forall|j: int|
            0 <= j < sig_b64(company, sub, exp, key).len() ==> #[trigger] sig_b64(
                company,
                sub,
                exp,
                key,
            )[j] != '.');
    }
    lemma_join_split(parts, '.');
    assert(parts.drop_last() =~= seq![header_b64(), payload_b64(company, sub, exp)]);
    assert(parts.drop_last().drop_last() =~= seq![header_b64()]);
    assert(join_on(seq![header_b64()], '.') == header_b64());
    assert(join_on(parts.drop_last(), '.') =~= header_b64() + seq!['.'] + payload_b64(
        company,
        sub,
        exp,
    ));
    assert(join_on(parts, '.') =~= token_for(company, sub, exp, key));
}

/// Two equal tokens under one key carry the same claims.
pub proof fn lemma_token_for_inj(
    c1: Seq<char>,
    s1: Seq<char>,
    e1: u64,
    c2: Seq<char>,
    s2: Seq<char>,
    e2: u64,
    key: Seq<u8>,
)
    requires
        token_for(c1, s1, e1, key) == token_for(c2, s2, e2, key),
    ensures
        c1 == c2 && s1 == s2 && e1 == e2,
{
    lemma_token_split(c1, s1, e1, key);
    lemma_token_split(c2, s2, e2, key);
    assert(payload_b64(c1, s1, e1) == payload_b64(c2, s2, e2));
    lemma_b64url_round_trip(encode_utf8(claims_json(c1, s1, e1)));
    lemma_b64url_round_trip(encode_utf8(claims_json(c2, s2, e2)));
    assert(encode_utf8(claims_json(c1, s1, e1)) == encode_utf8(claims_json(c2, s2, e2)));
    encode_utf8_decode_utf8(claims_json(c1, s1, e1));
    encode_utf8_decode_utf8(claims_json(c2, s2, e2));
    assert(claims_json(c1, s1, e1) == claims_json(c2, s2, e2));
    lemma_parse_claims_json(c1, s1, e1);
    lemma_parse_claims_json(c2, s2, e2);
}

/// Everything decoding checks holds of a canonical token: how it splits,
/// what its payload decodes to, and what the claims read as.
pub proof fn lemma_token_shape(
    token: Seq<char>,
    key: Seq<u8>,
    company: Seq<char>,
    sub: Seq<char>,
    exp: u64,
)
    requires
        token == token_for(company, sub, exp, key),
    ensures
        split_on(token, '.').len() == 3,
        split_on(token, '.')[0] == header_b64(),
        split_on(token, '.')[1] == payload_b64(company, sub, exp),
        split_on(token, '.')[2] == sig_b64(company, sub, exp, key),
        b64url_decode_spec(payload_b64(company, sub, exp)) == Some(
            encode_utf8(claims_json(company, sub, exp)),
        ),
        valid_utf8(encode_utf8(claims_json(company, sub, exp))),
        decode_utf8(encode_utf8(claims_json(company, sub, exp))) == claims_json(
            company,
            sub,
            exp,
        ),
        parse_claims(claims_json(company, sub, exp)) == Some((company, sub, exp)),
{
    lemma_token_split(company, sub, exp, key);
    lemma_b64url_round_trip(encode_utf8(claims_json(company, sub, exp)));
    encode_utf8_valid_utf8(claims_json(company, sub, exp));
    encode_utf8_decode_utf8(claims_json(company, sub, exp));
    lemma_parse_claims_json(company, sub, exp);
}

/// The converse: a token whose three parts pass every decoding check is
/// the canonical token of the claims its payload carries.
#[verifier::rlimit(100)]
pub proof fn lemma_token_reassemble(
    token: Seq<char>,
    key: Seq<u8>,
    company: Seq<char>,
    sub: Seq<char>,
    exp: u64,
    payload_bytes: Seq<u8>,
)
    requires
        split_on(token, '.').len() == 3,
        split_on(token, '.')[0] == header_b64(),
        b64url_decode_spec(split_on(token, '.')[1]) == Some(payload_bytes),
        valid_utf8(payload_bytes),
        parse_claims(decode_utf8(payload_bytes)) == Some((company, sub, exp)),
        split_on(token, '.')[2] == b64url_of(
            hs256_mac(
                encode_utf8(
                    split_on(token, '.')[0] + seq!['.'] + split_on(token, '.')[1],
                ),
                key,
            ),
        ),
    ensures
        token == token_for(company, sub, exp, key),
{
    let sp = split_on(token, '.');
    lemma_split_on_parts(token, '.');
    lemma_b64url_decode_canonical(sp[1]);
    decode_utf8_encode_utf8(payload_bytes);
    lemma_parse_claims_sound(decode_utf8(payload_bytes));
    assert(decode_utf8(payload_bytes) == claims_json(company, sub, exp));
    assert(payload_bytes == encode_utf8(claims_json(company, sub, exp)));
    assert(sp[1] == payload_b64(company, sub, exp));
    assert(sp[0] + seq!['.'] + sp[1] == signing_input(company, sub, exp));
    assert(sp[2] == sig_b64(company, sub, exp, key));
    assert(join_on(sp, '.') == token);
    assert(sp.drop_last() =~= seq![sp[0], sp[1]]);
    assert(sp.drop_last().drop_last() =~= seq![sp[0]]);
    assert(join_on(seq![sp[0]], '.') == sp[0]);
    assert(join_on(sp.drop_last(), '.') =~= sp[0] + seq!['.'] + sp[1]);
    assert(token =~= sp[0] + seq!['.'] + sp[1] + seq!['.'] + sp[2]);
    assert(token =~= token_for(company, sub, exp, key));
}

/// The canonical claims JSON text for the given values, executable form.
fn claims_json_chars(company: &str, sub: &str, exp: u64) -> (r: Vec<char>)
    ensures
        r@ == claims_json(company@, sub@, exp),
{
    let mut out: Vec<char> = Vec::new();
    append_str_chars(&mut out, "{\"company\":\"");
    append_escaped(&mut out, company);
    out.push('"');
    append_str_chars(&mut out, ",\"sub\":\"");
    append_escaped(&mut out, sub);
    out.push('"');
    append_str_chars(&mut out, ",\"exp\":");
    let digits = u64_to_dec_chars(exp);
    let mut i: usize = 0;
    let ghost before = out@;
    while i < digits.len()
        invariant
            i <= digits@.len(),
            out@ == before + digits@.take(i as int),
        decreases digits@.len() - i,
    {
        out.push(digits[i]);
        i = i + 1;
        proof {
            assert(out@ =~= before + digits@.take(i as int));
        }
    }
    proof {
        assert(digits@.take(i as int) =~= digits@);
    }
    out.push('}');
    proof {
        assert(out@ =~= claims_json(company@, sub@, exp));
    }
    out
}

/// Reads a claims JSON text, strictly; mirrors [`parse_claims`].
fn parse_claims_exec(v: &Vec<char>) -> (r: Option<(Vec<char>, Vec<char>, u64)>)
    ensures
        match r {
            Some((company, sub, exp)) => parse_claims(v@) == Some((company@, sub@, exp)),
            None => parse_claims(v@) is None,
        },
{
    let lit1 = str_chars("{\"company\":\"");
    if !match_lit(v, 0, "{\"company\":\"") {
        proof {
            assert(v@.skip(0) =~= v@);
        }
        return None;
    }
    proof {
        assert(v@.skip(0) =~= v@);
        assert(v@.take(lit_company().len() as int) =~= v@.skip(0).take(lit_company().len() as int));
    }
    let (company, j1) = match scan_string_exec(v, lit1.len()) {
        Some(x) => x,
        None => {
            return None;
        },
    };
    if !match_lit(v, j1, ",\"sub\":\"") {
        proof {
            let r1 = v@.skip(j1 as int);
            assert(r1.take(lit_sub().len() as int) =~= v@.skip(j1 as int).take(
                lit_sub().len() as int,
            ));
        }
        return None;
    }
    let lit2 = str_chars(",\"sub\":\"");
    proof {
        assert(v@.len() <= usize::MAX) by {
            assert(v@.len() == v.len());
        };
    }
    let start2 = j1 + lit2.len();
    proof {
        assert(v@.skip(j1 as int).skip(lit_sub().len() as int) =~= v@.skip(
            j1 + lit_sub().len() as int,
        ));
    }
    let (sub, j2) = match scan_string_exec(v, start2) {
        Some(x) => x,
        None => {
            return None;
        },
    };
    if !match_lit(v, j2, ",\"exp\":") {
        return None;
    }
    let lit3 = str_chars(",\"exp\":");
    proof {
        assert(v@.len() <= usize::MAX) by {
            assert(v@.len() == v.len());
        };
    }
    let start3 = j2 + lit3.len();
    proof {
        assert(v@.skip(j2 as int).skip(lit_exp().len() as int) =~= v@.skip(
            j2 + lit_exp().len() as int,
        ));
    }
    let ghost tail = v@.skip(j2 as int).skip(lit_exp().len() as int);
    if v.len() - start3 < 2 {
        proof {
            assert(tail.len() < 2);
        }
        return None;
    }
    if v[v.len() - 1] != '}' {
        proof {
            assert(tail.last() == v@[v@.len() - 1]);
        }
        return None;
    }
    let mut digits: Vec<char> = Vec::new();
    let mut i: usize = start3;
    while i < v.len() - 1
        invariant
            start3 <= i <= v@.len() - 1,
            digits@ == v@.subrange(start3 as int, i as int),
        decreases v@.len() - i,
    {
        digits.push(v[i]);
        i = i + 1;
        proof {
            assert(digits@ =~= v@.subrange(start3 as int, i as int));
        }
    }
    proof {
        assert(digits@ =~= tail.drop_last());
    }
    if digits.len() > 1 && digits[0] == '0' {
        return None;
    }
    let exp = match parse_u64(&digits) {
        Some(e) => e,
        None => {
            return None;
        },
    };
    Some((company, sub, exp))
}

/// Issues the token for `email` and `company` as of time `now`, signed
/// with `secret`; the expiry is one day after `now`.
pub fn create_token_at(email: &str, company: &str, secret: &[u8], now: u64) -> (r: Result<
    String,
    Error,
>)
    ensures
        r is Ok,
        r matches Ok(t) ==> t@ == token_for(company@, email@, token_expiry_at(now), secret@),
{
    let claims = Claims::with_email(email, company, now);
    let payload = claims_json_chars(claims.company.as_str(), claims.sub.as_str(), claims.exp);
    let payload_str = chars_to_string(&payload);
    let payload_bytes = payload_str.as_str().as_bytes_vec();
    let pb64 = b64url_encode(&payload_bytes);
    let header_bytes = "{\"typ\":\"JWT\",\"alg\":\"HS256\"}".as_bytes_vec();
    let hb64 = b64url_encode(&header_bytes);
    let mut message: Vec<char> = Vec::new();
    let mut k: usize = 0;
    while k < hb64.len()
        invariant
            k <= hb64@.len(),
            message@ == hb64@.take(k as int),
        decreases hb64@.len() - k,
    {
        message.push(hb64[k]);
        k = k + 1;
        proof {
            assert(message@ =~= hb64@.take(k as int));
        }
    }
    proof {
        assert(message@ =~= hb64@);
    }
    message.push('.');
    let ghost mid = message@;
    let mut k2: usize = 0;
    while k2 < pb64.len()
        invariant
            k2 <= pb64@.len(),
            message@ == mid + pb64@.take(k2 as int),
        decreases pb64@.len() - k2,
    {
        message.push(pb64[k2]);
        k2 = k2 + 1;
        proof {
            assert(message@ =~= mid + pb64@.take(k2 as int));
        }
    }
    proof {
        assert(message@ =~= signing_input(company@, email@, token_expiry_at(now)));
    }
    let message_str = chars_to_string(&message);
    let sig = match hs256_sign_b64(message_str.as_str(), secret) {
        Ok(s) => s,
        Err(e) => {
            return Err(e);
        },
    };
    let token = message_str.concat(".").concat(sig.as_str());
    proof {
        reveal_strlit(".");
        assert(("."@) =~= seq!['.']);
        assert(token@ =~= token_for(company@, email@, token_expiry_at(now), secret@));
    }
    Ok(token)
}

/// Issues a token now: [`create_token_at`] at the current time.
pub fn create_token(email: &str, company: &str, secret: &[u8]) -> (r: Result<String, Error>)
    ensures
        r is Ok,
        r matches Ok(t) ==> exists|exp: u64| t@ == token_for(company@, email@, exp, secret@),
{
    let now = now_unix_seconds();
    let r = create_token_at(email, company, secret, now);
    proof {
        if r is Ok {
            let t = r->Ok_0;
            assert(t@ == token_for(company@, email@, token_expiry_at(now), secret@));
        }
    }
    r
}

/// Verifies `token` against `secret` as of time `now`.
///
/// Exactly the tokens this module issues are accepted while they last:
/// a token equal to `token_for(company, sub, exp, secret)` yields the
/// user `{sub, company}` when `exp >= now` (the round-trip law) and is
/// rejected as `Unauthorized` once `exp < now`; anything else — wrong
/// signature, wrong key, non-canonical encoding — is `Unauthorized` too.
/// Holds when `token` is a token this module issued for `company` and
/// `email` under `key`, with some expiry not yet past at `now`.
pub open spec fn issued_token(
    token: Seq<char>,
    company: Seq<char>,
    email: Seq<char>,
    key: Seq<u8>,
    now: u64,
) -> bool {
    exists|exp: u64| #[trigger] token_for(company, email, exp, key) == token && exp >= now
}

#[verifier::rlimit(100)]
pub fn decode_token_at(token: &str, secret: &[u8], now: u64) -> (r: Result<SlimUser, Error>)
    ensures
        r matches Ok(u) ==> issued_token(token@, u.company@, u.email@, secret@, now),
        forall|company: Seq<char>, sub: Seq<char>, exp: u64|
            #[trigger] token_for(company, sub, exp, secret@) == token@ && exp >= now ==> (
            r matches Ok(u) && u.company@ == company && u.email@ == sub),
        forall|company: Seq<char>, sub: Seq<char>, exp: u64|
            #[trigger] token_for(company, sub, exp, secret@) == token@ && exp < now ==> (
            r matches Err(e) && e is Unauthorized),
        r matches Err(e) ==> e is Unauthorized,
{
    let chars = str_chars(token);
    let parts = split_chars(&chars, '.');
    if parts.len() != 3 {
        proof {
            assert forall|company: Seq<char>, sub: Seq<char>, exp: u64|
                #[trigger] token_for(company, sub, exp, secret@) != token@ by {
                if token_for(company, sub, exp, secret@) == token@ {
                    lemma_token_shape(token@, secret@, company, sub, exp);
                }
            }
        }
        return Err(Error::Unauthorized);
    }
    let header_bytes = "{\"typ\":\"JWT\",\"alg\":\"HS256\"}".as_bytes_vec();
    let hb64 = b64url_encode(&header_bytes);
    if !chars_eq(&parts[0], &hb64) {
        proof {
            assert forall|company: Seq<char>, sub: Seq<char>, exp: u64|
                #[trigger] token_for(company, sub, exp, secret@) != token@ by {
                if token_for(company, sub, exp, secret@) == token@ {
                    lemma_token_shape(token@, secret@, company, sub, exp);
                }
            }
        }
        return Err(Error::Unauthorized);
    }
    let payload_bytes = match b64url_decode(&parts[1]) {
        Some(b) => b,
        None => {
            proof {
                assert forall|company: Seq<char>, sub: Seq<char>, exp: u64|
                    #[trigger] token_for(company, sub, exp, secret@) != token@ by {
                    if token_for(company, sub, exp, secret@) == token@ {
                        lemma_token_shape(token@, secret@, company, sub, exp);
                    }
                }
            }
            return Err(Error::Unauthorized);
        },
    };
    let ghost payload_bytes_view = payload_bytes@;
    let payload_str = match string_from_utf8(payload_bytes) {
        Some(s) => s,
        None => {
            proof {
                assert forall|company: Seq<char>, sub: Seq<char>, exp: u64|
                    #[trigger] token_for(company, sub, exp, secret@) != token@ by {
                    if token_for(company, sub, exp, secret@) == token@ {
                        lemma_token_shape(token@, secret@, company, sub, exp);
                    }
                }
            }
            return Err(Error::Unauthorized);
        },
    };
    let payload_chars = str_chars(payload_str.as_str());
    let parsed = match parse_claims_exec(&payload_chars) {
        Some(x) => x,
        None => {
            proof {
                assert forall|company: Seq<char>, sub: Seq<char>, exp: u64|
                    #[trigger] token_for(company, sub, exp, secret@) != token@ by {
                    if token_for(company, sub, exp, secret@) == token@ {
                        lemma_token_shape(token@, secret@, company, sub, exp);
                    }
                }
            }
            return Err(Error::Unauthorized);
        },
    };
    let (company_v, sub_v, exp) = parsed;
    let mut message: Vec<char> = Vec::new();
    let mut k: usize = 0;
    while k < parts[0].len()
        invariant
            k <= parts@[0]@.len(),
            parts@.len() == 3,
            message@ == parts@[0]@.take(k as int),
        decreases parts@[0]@.len() - k,
    {
        message.push(parts[0][k]);
        k = k + 1;
        proof {
            assert(message@ =~= parts@[0]@.take(k as int));
        }
    }
    proof {
        assert(message@ =~= parts@[0]@);
    }
    message.push('.');
    let ghost mid = message@;
    let mut k2: usize = 0;
    while k2 < parts[1].len()
        invariant
            k2 <= parts@[1]@.len(),
            parts@.len() == 3,
            message@ == mid + parts@[1]@.take(k2 as int),
        decreases parts@[1]@.len() - k2,
    {
        message.push(parts[1][k2]);
        k2 = k2 + 1;
        proof {
            assert(message@ =~= mid + parts@[1]@.take(k2 as int));
        }
    }
    proof {
        assert(message@ =~= parts@[0]@ + seq!['.'] + parts@[1]@);
    }
    let message_str = chars_to_string(&message);
    let sig = match hs256_sign_b64(message_str.as_str(), secret) {
        Ok(s) => s,
        Err(_) => {
            proof {
                assert(false);
            }
            return Err(Error::Unauthorized);
        },
    };
    let sig_chars = str_chars(sig.as_str());
    if !chars_eq(&parts[2], &sig_chars) {
        proof {
            assert forall|company: Seq<char>, sub: Seq<char>, exp2: u64|
                #[trigger] token_for(company, sub, exp2, secret@) != token@ by {
                if token_for(company, sub, exp2, secret@) == token@ {
                    lemma_token_shape(token@, secret@, company, sub, exp2);
                }
            }
        }
        return Err(Error::Unauthorized);
    }
    proof {
        lemma_token_reassemble(
            token@,
            secret@,
            company_v@,
            sub_v@,
            exp,
            payload_bytes_view,
        );
    }
    if exp >= now {
        let u = SlimUser { email: chars_to_string(&sub_v), company: chars_to_string(&company_v) };
        proof {
            assert(token_for(u.company@, u.email@, exp, secret@) == token@ && exp >= now);
            assert(issued_token(token@, u.company@, u.email@, secret@, now));
            assert forall|company: Seq<char>, sub: Seq<char>, exp2: u64|
                #[trigger] token_for(company, sub, exp2, secret@) == token@ implies company
                == u.company@ && sub == u.email@ && exp2 == exp by {
                lemma_token_for_inj(company, sub, exp2, u.company@, u.email@, exp, secret@);
            }
        }
        Ok(u)
    } else {
        proof {
            assert forall|company: Seq<char>, sub: Seq<char>, exp2: u64|
                #[trigger] token_for(company, sub, exp2, secret@) == token@ implies exp2
                < now by {
                lemma_token_for_inj(company, sub, exp2, company_v@, sub_v@, exp, secret@);
            }
        }
        Err(Error::Unauthorized)
    }
}

/// The round-trip and expiry laws at the level of the token model: the
/// token issued for a company and subject with expiry `exp` counts as a
/// valid issued token at `now` exactly while `exp` has not passed.
pub proof fn lemma_token_validity_window(
    company: Seq<char>,
    sub: Seq<char>,
    exp: u64,
    key: Seq<u8>,
    now: u64,
)
    ensures
        issued_token(token_for(company, sub, exp, key), company, sub, key, now) <==> exp >= now,
{
    let token = token_for(company, sub, exp, key);
    if exp >= now {
        assert(token_for(company, sub, exp, key) == token && exp >= now);
        assert(issued_token(token, company, sub, key, now));
    }
    if issued_token(token, company, sub, key, now) {
        let exp2 = choose|exp2: u64|
            #[trigger] token_for(company, sub, exp2, key) == token && exp2 >= now;
        lemma_token_for_inj(company, sub, exp2, company, sub, exp, key);
    }
}

/// Verifies a token against `secret` as of the current time.
pub fn decode_token(token: &str, secret: &[u8]) -> (r: Result<SlimUser, Error>)
    ensures
        r matches Ok(u) ==> exists|exp: u64|
            #[trigger] token_for(u.company@, u.email@, exp, secret@) == token@,
        r matches Err(e) ==> e is Unauthorized,
{
    let now = now_unix_seconds();
    let r = decode_token_at(token, secret, now);
    proof {
        if r is Ok {
            let u = r->Ok_0;
            assert(issued_token(token@, u.company@, u.email@, secret@, now));
            let exp = choose|exp: u64|
                #[trigger] token_for(u.company@, u.email@, exp, secret@) == token@ && exp >= now;
            assert(token_for(u.company@, u.email@, exp, secret@) == token@);
        }
    }
    r
}

} // verus!
