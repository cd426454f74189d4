//! The CSRF token service: short-lived keyed tokens, generated once per
//! login response and verified on every state-relevant request.
//!
//! A token carries its expiry timestamp (issuance time plus the
//! configured window) as eight big-endian bytes, followed by a keyed tag:
//! the HMAC-SHA256 of the expiry's decimal text under the CSRF key, in
//! its base64url form, as ASCII bytes. The tag comes from the same
//! trusted signing primitive the session-token service uses.
//! Verification is stateless: recompute the tag, compare, then check the
//! expiry against the current time.

use crate::b64::{b64url_of, lemma_b64url_of_chars};
use crate::clock::now_unix_seconds;
use crate::hexstr::{hex_encode, hex_lower_of};
use crate::jwt::{hs256_mac, hs256_sign_b64};
use crate::strutil::{
    ascii_bytes_of, ascii_chars, chars_to_bytes, chars_to_string, dec_chars_of, str_chars,
    u64_to_dec_chars,
};
use vstd::prelude::*;
use vstd::utf8::encode_utf8;

verus! {

/// The big-endian byte `i` (most significant first) of `x`.
pub open spec fn be_byte(x: u64, i: int) -> u8 {
    if i == 0 {
        ((x / 0x100000000000000) % 256) as u8
    } else if i == 1 {
        ((x / 0x1000000000000) % 256) as u8
    } else if i == 2 {
        ((x / 0x10000000000) % 256) as u8
    } else if i == 3 {
        ((x / 0x100000000) % 256) as u8
    } else if i == 4 {
        ((x / 0x1000000) % 256) as u8
    } else if i == 5 {
        ((x / 0x10000) % 256) as u8
    } else if i == 6 {
        ((x / 0x100) % 256) as u8
    } else {
        (x % 256) as u8
    }
}

/// The eight big-endian bytes of `x`.
pub open spec fn u64_be_bytes(x: u64) -> Seq<u8> {
    Seq::new(8, |i: int| be_byte(x, i))
}

/// The value the eight big-endian bytes denote.
pub open spec fn be_value(b: Seq<u8>) -> int {
    b[0] * 0x100000000000000 + b[1] * 0x1000000000000 + b[2] * 0x10000000000 + b[3] * 0x100000000
        + b[4] * 0x1000000 + b[5] * 0x10000 + b[6] * 0x100 + b[7]
}

/// Reading back the big-endian bytes of `x` gives `x`.
pub proof fn lemma_be_round_trip(x: u64)
    ensures
        be_value(u64_be_bytes(x)) == x,
{
    assert(be_value(u64_be_bytes(x)) == ((x / 0x100000000000000) % 256) * 0x100000000000000 + ((x
        / 0x1000000000000) % 256) * 0x1000000000000 + ((x / 0x10000000000) % 256) * 0x10000000000
        + ((x / 0x100000000) % 256) * 0x100000000 + ((x / 0x1000000) % 256) * 0x1000000 + ((x
        / 0x10000) % 256) * 0x10000 + ((x / 0x100) % 256) * 0x100 + (x % 256));
    assert(((x / 0x100000000000000) % 256) * 0x100000000000000 + ((x / 0x1000000000000) % 256)
        * 0x1000000000000 + ((x / 0x10000000000) % 256) * 0x10000000000 + ((x / 0x100000000) % 256)
        * 0x100000000 + ((x / 0x1000000) % 256) * 0x1000000 + ((x / 0x10000) % 256) * 0x10000 + ((x
        / 0x100) % 256) * 0x100 + (x % 256) == x) by (bit_vector);
}

/// Eight bytes are recovered from the value they denote.
pub proof fn lemma_be_value_bytes(b: Seq<u8>)
    requires
        b.len() == 8,
    ensures
        0 <= be_value(b) <= u64::MAX,
        u64_be_bytes(be_value(b) as u64) == b,
{
    let b0 = b[0] as u64;
    let b1 = b[1] as u64;
    let b2 = b[2] as u64;
    let b3 = b[3] as u64;
    let b4 = b[4] as u64;
    let b5 = b[5] as u64;
    let b6 = b[6] as u64;
    let b7 = b[7] as u64;
    assert(be_value(b) == b0 * 0x100000000000000 + b1 * 0x1000000000000 + b2 * 0x10000000000 + b3
        * 0x100000000 + b4 * 0x1000000 + b5 * 0x10000 + b6 * 0x100 + b7);
    assert(0 <= b0 * 0x100000000000000 + b1 * 0x1000000000000 + b2 * 0x10000000000 + b3
        * 0x100000000 + b4 * 0x1000000 + b5 * 0x10000 + b6 * 0x100 + b7 <= 0xFFFFFFFFFFFFFFFF);
    let x = be_value(b) as u64;
    assert(x == b0 * 0x100000000000000 + b1 * 0x1000000000000 + b2 * 0x10000000000 + b3
        * 0x100000000 + b4 * 0x1000000 + b5 * 0x10000 + b6 * 0x100 + b7);
    assert((x / 0x100000000000000) % 256 == b0 && (x / 0x1000000000000) % 256 == b1 && (x
        / 0x10000000000) % 256 == b2 && (x / 0x100000000) % 256 == b3 && (x / 0x1000000) % 256
        == b4 && (x / 0x10000) % 256 == b5 && (x / 0x100) % 256 == b6 && x % 256 == b7)
        by (bit_vector)
        requires
            x == b0 * 0x100000000000000 + b1 * 0x1000000000000 + b2 * 0x10000000000 + b3
                * 0x100000000 + b4 * 0x1000000 + b5 * 0x10000 + b6 * 0x100 + b7 && b0 < 256 && b1
                < 256 && b2 < 256 && b3 < 256 && b4 < 256 && b5 < 256 && b6 < 256 && b7 < 256,
    ;
    assert(u64_be_bytes(x) =~= b);
}

/// The keyed tag of a token expiring at `expiry`: the base64url of the
/// HMAC-SHA256 of the expiry's decimal text under `key`.
pub open spec fn csrf_tag_chars(key: Seq<u8>, expiry: u64) -> Seq<char> {
    b64url_of(hs256_mac(encode_utf8(dec_chars_of(expiry as nat)), key))
}

/// The complete token for a key and an expiry time: the expiry bytes,
/// then the tag as ASCII bytes.
pub open spec fn csrf_token_bytes(key: Seq<u8>, expiry: u64) -> Seq<u8> {
    u64_be_bytes(expiry) + ascii_bytes_of(csrf_tag_chars(key, expiry))
}

/// Whether `token` is a well-formed token under `key` that is still valid
/// at time `now`.
pub open spec fn csrf_valid(key: Seq<u8>, token: Seq<u8>, now: u64) -> bool {
    &&& token.len() >= 8
    &&& 0 <= be_value(token.subrange(0, 8)) <= u64::MAX
    &&& token == csrf_token_bytes(key, be_value(token.subrange(0, 8)) as u64)
    &&& be_value(token.subrange(0, 8)) >= now
}

/// A freshly generated token verifies exactly until its expiry passes:
/// `csrf_token_bytes(key, expiry)` is valid at `now` if and only if `now`
/// is not past `expiry`.
pub proof fn lemma_csrf_token_window(key: Seq<u8>, expiry: u64, now: u64)
    ensures
        csrf_valid(key, csrf_token_bytes(key, expiry), now) <==> now <= expiry,
{
    lemma_be_round_trip(expiry);
    let token = csrf_token_bytes(key, expiry);
    assert(token.subrange(0, 8) =~= u64_be_bytes(expiry));
    assert(token.len() >= 8);
}

/// Appends the bytes of `v` to `out`.
fn append_bytes(out: &mut Vec<u8>, v: &Vec<u8>)
    ensures
        final(out)@ == old(out)@ + v@,
{
    let mut i: usize = 0;
    while i < v.len()
        invariant
            i <= v@.len(),
            out@ == old(out)@ + v@.take(i as int),
        decreases v@.len() - i,
    {
        out.push(v[i]);
        i = i + 1;
        proof {
            assert(out@ =~= old(out)@ + v@.take(i as int));
        }
    }
    proof {
        assert(out@ =~= old(out)@ + v@);
    }
}

/// Whether two byte vectors hold the same bytes.
fn bytes_eq(a: &Vec<u8>, b: &Vec<u8>) -> (r: bool)
    ensures
        r == (a@ == b@),
{
    if a.len() != b.len() {
        proof {
            assert(a@ != b@);
        }
        return false;
    }
    let mut i: usize = 0;
    while i < a.len()
        invariant
            i <= a@.len(),
            a@.len() == b@.len(),
            forall|j: int| 0 <= j < i ==> a@[j] == b@[j],
        decreases a@.len() - i,
    {
        if a[i] != b[i] {
            proof {
                assert(a@[i as int] != b@[i as int]);
            }
            return false;
        }
        i = i + 1;
    }
    proof {
        assert(a@ =~= b@);
    }
    true
}

/// The generator of CSRF tokens: a server-side key (distinct from the
/// session-signing secret) and a validity window in seconds.
#[derive(Debug)]
pub struct CsrfTokenGenerator {
    pub secret: Vec<u8>,
    pub duration_secs: u64,
}

/// The expiry a token issued at `now` carries.
pub open spec fn csrf_expiry_at(now: u64, duration_secs: u64) -> u64 {
    if now + duration_secs <= u64::MAX {
        (now + duration_secs) as u64
    } else {
        u64::MAX
    }
}

impl CsrfTokenGenerator {
    /// A generator for the given key and validity window.
    pub fn new(secret: Vec<u8>, duration_secs: u64) -> (r: CsrfTokenGenerator)
        ensures
            r.secret@ == secret@,
            r.duration_secs == duration_secs,
    {
        CsrfTokenGenerator { secret, duration_secs }
    }

    /// The tag for a token expiring at `expiry`, as ASCII bytes.
    fn tag_bytes_for(&self, expiry: u64) -> (r: Vec<u8>)
        ensures
            r@ == ascii_bytes_of(csrf_tag_chars(self.secret@, expiry)),
    {
        let digits = u64_to_dec_chars(expiry);
        let message = chars_to_string(&digits);
        let sig = match hs256_sign_b64(message.as_str(), self.secret.as_slice()) {
            Ok(s) => s,
            Err(_) => {
                proof {
                    assert(false);
                }
                String::new()
            },
        };
        let sig_chars = str_chars(sig.as_str());
        proof {
            let mac = hs256_mac(encode_utf8(dec_chars_of(expiry as nat)), self.secret@);
            lemma_b64url_of_chars(mac);
            assert(sig_chars@ == b64url_of(mac));
            assert forall|i: int| 0 <= i < sig_chars@.len() implies (
            #[trigger] sig_chars@[i] as u32) < 128 by {
                assert(sig_chars@[i] == b64url_of(mac)[i]);
            }
            assert(ascii_chars(sig_chars@));
        }
        chars_to_bytes(&sig_chars)
    }

    /// The token issued at time `now`, valid for the configured window.
    pub fn generate_at(&self, now: u64) -> (r: Vec<u8>)
        ensures
            r@ == csrf_token_bytes(self.secret@, csrf_expiry_at(now, self.duration_secs)),
    {
        let expiry: u64 = if now <= u64::MAX - self.duration_secs {
            now + self.duration_secs
        } else {
            u64::MAX
        };
        let mut out: Vec<u8> = Vec::new();
        out_push_be(&mut out, expiry);
        proof {
            assert(out@ =~= u64_be_bytes(expiry));
        }
        let tag = self.tag_bytes_for(expiry);
        append_bytes(&mut out, &tag);
        proof {
            assert(out@ =~= csrf_token_bytes(self.secret@, expiry));
        }
        out
    }

    /// Whether `token` is one of this generator's tokens and still valid
    /// at time `now`.
    pub fn verify(&self, token: &Vec<u8>, now: u64) -> (ok: bool)
        ensures
            ok == csrf_valid(self.secret@, token@, now),
    {
        if token.len() < 8 {
            return false;
        }
        let b0 = token[0] as u64;
        let b1 = token[1] as u64;
        let b2 = token[2] as u64;
        let b3 = token[3] as u64;
        let b4 = token[4] as u64;
        let b5 = token[5] as u64;
        let b6 = token[6] as u64;
        let b7 = token[7] as u64;
        let expiry: u64 = b0 * 0x100000000000000 + b1 * 0x1000000000000 + b2 * 0x10000000000 + b3
            * 0x100000000 + b4 * 0x1000000 + b5 * 0x10000 + b6 * 0x100 + b7;
        proof {
            assert(expiry == be_value(token@.subrange(0, 8)));
            lemma_be_value_bytes(token@.subrange(0, 8));
        }
        let mut expected: Vec<u8> = Vec::new();
        out_push_be(&mut expected, expiry);
        proof {
            assert(expected@ =~= u64_be_bytes(expiry));
        }
        let tag = self.tag_bytes_for(expiry);
        append_bytes(&mut expected, &tag);
        proof {
            assert(expected@ =~= csrf_token_bytes(self.secret@, expiry));
        }
        let same = bytes_eq(token, &expected);
        let ok = same && expiry >= now;
        proof {
            if ok {
                assert(token@ == csrf_token_bytes(
                    self.secret@,
                    be_value(token@.subrange(0, 8)) as u64,
                ));
                assert(csrf_valid(self.secret@, token@, now));
            } else {
                if csrf_valid(self.secret@, token@, now) {
                    assert(token@ == csrf_token_bytes(self.secret@, expiry));
                    assert(token@ == expected@);
                    assert(be_value(token@.subrange(0, 8)) >= now);
                    assert(false);
                }
            }
        }
        ok
    }

    /// The value of the `X-CSRF-TOKEN` response header for a token issued
    /// at `now`: the token, hex-encoded.
    pub fn header_value_at(&self, now: u64) -> (r: String)
        ensures
            r@ == hex_lower_of(
                csrf_token_bytes(self.secret@, csrf_expiry_at(now, self.duration_secs)),
            ),
    {
        let token = self.generate_at(now);
        hex_encode(&token)
    }

    /// The token issued now.
    pub fn generate(&self) -> (r: Vec<u8>)
        ensures
            exists|now: u64| r@ == csrf_token_bytes(
                self.secret@,
                #[trigger] csrf_expiry_at(now, self.duration_secs),
            ),
    {
        let now = now_unix_seconds();
        let r = self.generate_at(now);
        proof {
            assert(r@ == csrf_token_bytes(
                self.secret@,
                csrf_expiry_at(now, self.duration_secs),
            ));
        }
        r
    }
}

/// Pushes the eight big-endian bytes of `x` onto `out`.
fn out_push_be(out: &mut Vec<u8>, x: u64)
    ensures
        final(out)@ == old(out)@ + u64_be_bytes(x),
{
    out.push(((x / 0x100000000000000) % 256) as u8);
    out.push(((x / 0x1000000000000) % 256) as u8);
    out.push(((x / 0x10000000000) % 256) as u8);
    out.push(((x / 0x100000000) % 256) as u8);
    out.push(((x / 0x1000000) % 256) as u8);
    out.push(((x / 0x10000) % 256) as u8);
    out.push(((x / 0x100) % 256) as u8);
    out.push((x % 256) as u8);
    proof {
        assert(out@ =~= old(out)@ + u64_be_bytes(x));
    }
}

} // verus!
