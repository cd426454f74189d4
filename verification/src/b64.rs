//! URL-safe base64 without padding: the encoding used for the parts of a
//! session token.
//!
//! Both directions are specified exactly. Decoding is strict: it accepts
//! only what encoding produces (no padding characters, and the unused low
//! bits of a final partial group must be zero), so decode inverts encode.

use vstd::prelude::*;

verus! {

/// The code point of the base64url character for a 6-bit value.
pub open spec fn b64_code(v: int) -> int {
    if v < 26 {
        65 + v  // 'A'..'Z'
    } else if v < 52 {
        97 + (v - 26)  // 'a'..'z'
    } else if v < 62 {
        48 + (v - 52)  // '0'..'9'
    } else if v == 62 {
        45  // '-'
    } else {
        95  // '_'
    }
}

/// The base64url character for a 6-bit value.
pub open spec fn b64_char(v: int) -> char {
    (b64_code(v) as u8) as char
}

/// The 6-bit value of a base64url character, or -1 for any other character.
pub open spec fn b64_val(c: char) -> int {
    let u = c as int;
    if 65 <= u <= 90 {
        u - 65
    } else if 97 <= u <= 122 {
        (u - 97) + 26
    } else if 48 <= u <= 57 {
        (u - 48) + 52
    } else if u == 45 {
        62
    } else if u == 95 {
        63
    } else {
        -1
    }
}

/// Holds when `c` belongs to the base64url alphabet.
pub open spec fn is_b64_char(c: char) -> bool {
    b64_val(c) >= 0
}

/// Encoding and decoding a 6-bit value are inverse, and the alphabet stays
/// clear of the token syntax characters `'.'` and `'\n'`.
pub proof fn lemma_b64_char_val(v: int)
    requires
        0 <= v < 64,
    ensures
        b64_val(b64_char(v)) == v,
        is_b64_char(b64_char(v)),
        b64_char(v) != '.',
        b64_char(v) != '\n',
        (b64_char(v) as u32) < 128,
{
    assert(b64_char(v) as int == b64_code(v));
}

/// The base64url encoding of a byte sequence, without padding.
pub open spec fn b64url_of(b: Seq<u8>) -> Seq<char>
    decreases b.len(),
{
    if b.len() == 0 {
        Seq::<char>::empty()
    } else if b.len() == 1 {
        let b0 = b[0] as int;
        seq![b64_char(b0 / 4), b64_char((b0 % 4) * 16)]
    } else if b.len() == 2 {
        let b0 = b[0] as int;
        let b1 = b[1] as int;
        seq![b64_char(b0 / 4), b64_char((b0 % 4) * 16 + b1 / 16), b64_char((b1 % 16) * 4)]
    } else {
        let b0 = b[0] as int;
        let b1 = b[1] as int;
        let b2 = b[2] as int;
        seq![
            b64_char(b0 / 4),
            b64_char((b0 % 4) * 16 + b1 / 16),
            b64_char((b1 % 16) * 4 + b2 / 64),
            b64_char(b2 % 64),
        ] + b64url_of(b.skip(3))
    }
}

/// The strict base64url decoding of a character sequence: `None` unless
/// the input is exactly an unpadded encoding with zeroed trailing bits.
pub open spec fn b64url_decode_spec(s: Seq<char>) -> Option<Seq<u8>>
    decreases s.len(),
{
    if s.len() == 0 {
        Some(Seq::<u8>::empty())
    } else if s.len() == 1 {
        None
    } else if s.len() == 2 {
        let v0 = b64_val(s[0]);
        let v1 = b64_val(s[1]);
        if v0 >= 0 && v1 >= 0 && v1 % 16 == 0 {
            Some(seq![(v0 * 4 + v1 / 16) as u8])
        } else {
            None
        }
    } else if s.len() == 3 {
        let v0 = b64_val(s[0]);
        let v1 = b64_val(s[1]);
        let v2 = b64_val(s[2]);
        if v0 >= 0 && v1 >= 0 && v2 >= 0 && v2 % 4 == 0 {
            Some(seq![(v0 * 4 + v1 / 16) as u8, ((v1 % 16) * 16 + v2 / 4) as u8])
        } else {
            None
        }
    } else {
        let v0 = b64_val(s[0]);
        let v1 = b64_val(s[1]);
        let v2 = b64_val(s[2]);
        let v3 = b64_val(s[3]);
        if v0 >= 0 && v1 >= 0 && v2 >= 0 && v3 >= 0 {
            match b64url_decode_spec(s.skip(4)) {
                Some(rest) => Some(
                    seq![
                        (v0 * 4 + v1 / 16) as u8,
                        ((v1 % 16) * 16 + v2 / 4) as u8,
                        ((v2 % 4) * 64 + v3) as u8,
                    ] + rest,
                ),
                None => None,
            }
        } else {
            None
        }
    }
}

/// Every character an encoding produces is in the alphabet; in
/// particular it is ASCII and is neither a dot nor a newline.
pub proof fn lemma_b64url_of_chars(b: Seq<u8>)
    ensures
        forall|i: int|
            0 <= i < b64url_of(b).len() ==> is_b64_char(#[trigger] b64url_of(b)[i])
                && b64url_of(b)[i] != '.' && b64url_of(b)[i] != '\n' && (b64url_of(b)[i] as u32)
                < 128,
    decreases b.len(),
{
    if b.len() == 0 {
    } else if b.len() == 1 {
        let b0 = b[0] as int;
        lemma_b64_char_val(b0 / 4);
        lemma_b64_char_val((b0 % 4) * 16);
    } else if b.len() == 2 {
        let b0 = b[0] as int;
        let b1 = b[1] as int;
        lemma_b64_char_val(b0 / 4);
        lemma_b64_char_val((b0 % 4) * 16 + b1 / 16);
        lemma_b64_char_val((b1 % 16) * 4);
    } else {
        let b0 = b[0] as int;
        let b1 = b[1] as int;
        let b2 = b[2] as int;
        lemma_b64_char_val(b0 / 4);
        lemma_b64_char_val((b0 % 4) * 16 + b1 / 16);
        lemma_b64_char_val((b1 % 16) * 4 + b2 / 64);
        lemma_b64_char_val(b2 % 64);
        lemma_b64url_of_chars(b.skip(3));
        assert forall|i: int| 0 <= i < b64url_of(b).len() implies is_b64_char(
            #[trigger] b64url_of(b)[i],
        ) && b64url_of(b)[i] != '.' && b64url_of(b)[i] != '\n' && (b64url_of(b)[i] as u32)
            < 128 by {
            if i >= 4 {
                assert(b64url_of(b)[i] == b64url_of(b.skip(3))[i - 4]);
            }
        }
    }
}

/// Decoding inverts encoding.
pub proof fn lemma_b64url_round_trip(b: Seq<u8>)
    ensures
        b64url_decode_spec(b64url_of(b)) == Some(b),
    decreases b.len(),
{
    if b.len() == 0 {
        assert(b64url_of(b) =~= Seq::<char>::empty());
        assert(b =~= Seq::<u8>::empty());
    } else if b.len() == 1 {
        let b0 = b[0] as int;
        lemma_b64_char_val(b0 / 4);
        lemma_b64_char_val((b0 % 4) * 16);
        let s = b64url_of(b);
        assert(s.len() == 2);
        assert(b64_val(s[0]) == b0 / 4);
        assert(b64_val(s[1]) == (b0 % 4) * 16);
        assert(((b0 % 4) * 16) % 16 == 0 && ((b0 % 4) * 16) / 16 == b0 % 4) by (nonlinear_arith);
        assert((b0 / 4) * 4 + b0 % 4 == b0);
        assert(b64url_decode_spec(s) == Some(seq![b[0]]));
        assert(seq![b[0]] =~= b);
    } else if b.len() == 2 {
        let b0 = b[0] as int;
        let b1 = b[1] as int;
        lemma_b64_char_val(b0 / 4);
        lemma_b64_char_val((b0 % 4) * 16 + b1 / 16);
        lemma_b64_char_val((b1 % 16) * 4);
        let s = b64url_of(b);
        assert(s.len() == 3);
        let v0 = b64_val(s[0]);
        let v1 = b64_val(s[1]);
        let v2 = b64_val(s[2]);
        assert(v0 == b0 / 4 && v1 == (b0 % 4) * 16 + b1 / 16 && v2 == (b1 % 16) * 4);
        assert(v2 % 4 == 0 && v2 / 4 == b1 % 16) by (nonlinear_arith)
            requires
                v2 == (b1 % 16) * 4 && 0 <= b1 < 256,
        ;
        assert(v1 / 16 == b0 % 4 && v1 % 16 == b1 / 16) by (nonlinear_arith)
            requires
                v1 == (b0 % 4) * 16 + b1 / 16 && 0 <= b0 < 256 && 0 <= b1 < 256,
        ;
        assert(v0 * 4 + v1 / 16 == b0);
        assert((v1 % 16) * 16 + v2 / 4 == b1) by (nonlinear_arith)
            requires
                v1 % 16 == b1 / 16 && v2 / 4 == b1 % 16 && 0 <= b1 < 256,
        ;
        assert(b64url_decode_spec(s) == Some(seq![b[0], b[1]]));
        assert(seq![b[0], b[1]] =~= b);
    } else {
        let b0 = b[0] as int;
        let b1 = b[1] as int;
        let b2 = b[2] as int;
        lemma_b64_char_val(b0 / 4);
        lemma_b64_char_val((b0 % 4) * 16 + b1 / 16);
        lemma_b64_char_val((b1 % 16) * 4 + b2 / 64);
        lemma_b64_char_val(b2 % 64);
        lemma_b64url_round_trip(b.skip(3));
        let s = b64url_of(b);
        let tail = b64url_of(b.skip(3));
        assert(s == seq![s[0], s[1], s[2], s[3]] + tail);
        assert(s.len() >= 4);
        assert(s.skip(4) =~= tail);
        let v0 = b64_val(s[0]);
        let v1 = b64_val(s[1]);
        let v2 = b64_val(s[2]);
        let v3 = b64_val(s[3]);
        assert(v0 == b0 / 4 && v1 == (b0 % 4) * 16 + b1 / 16 && v2 == (b1 % 16) * 4 + b2 / 64 && v3
            == b2 % 64);
        assert(v1 / 16 == b0 % 4 && v1 % 16 == b1 / 16) by (nonlinear_arith)
            requires
                v1 == (b0 % 4) * 16 + b1 / 16 && 0 <= b0 < 256 && 0 <= b1 < 256,
        ;
        assert(v2 / 4 == b1 % 16 && v2 % 4 == b2 / 64) by (nonlinear_arith)
            requires
                v2 == (b1 % 16) * 4 + b2 / 64 && 0 <= b1 < 256 && 0 <= b2 < 256,
        ;
        assert(v0 * 4 + v1 / 16 == b0);
        assert((v1 % 16) * 16 + v2 / 4 == b1) by (nonlinear_arith)
            requires
                v1 % 16 == b1 / 16 && v2 / 4 == b1 % 16 && 0 <= b1 < 256,
        ;
        assert((v2 % 4) * 64 + v3 == b2) by (nonlinear_arith)
            requires
                v2 % 4 == b2 / 64 && v3 == b2 % 64 && 0 <= b2 < 256,
        ;
        assert(b64url_decode_spec(s) == Some(seq![b[0], b[1], b[2]] + b.skip(3)));
        assert(seq![b[0], b[1], b[2]] + b.skip(3) =~= b);
    }
}

/// The base64url character for a 6-bit value, executable form.
fn b64_char_exec(v: u32) -> (c: char)
    requires
        v < 64,
    ensures
        c == b64_char(v as int),
{
    let code: u32 = if v < 26 {
        65 + v
    } else if v < 52 {
        97 + (v - 26)
    } else if v < 62 {
        48 + (v - 52)
    } else if v == 62 {
        45
    } else {
        95
    };
    (code as u8) as char
}

/// The 6-bit value of a base64url character, executable form.
fn b64_val_exec(c: char) -> (r: Option<u32>)
    ensures
        match r {
            Some(v) => b64_val(c) == v as int && v < 64,
            None => b64_val(c) < 0,
        },
{
    let u = c as u32;
    if 65 <= u && u <= 90 {
        Some(u - 65)
    } else if 97 <= u && u <= 122 {
        Some((u - 97) + 26)
    } else if 48 <= u && u <= 57 {
        Some((u - 48) + 52)
    } else if u == 45 {
        Some(62)
    } else if u == 95 {
        Some(63)
    } else {
        None
    }
}

/// Encodes bytes as unpadded base64url characters.
pub fn b64url_encode(bytes: &Vec<u8>) -> (r: Vec<char>)
    ensures
        r@ == b64url_of(bytes@),
{
    let mut out: Vec<char> = Vec::new();
    let mut i: usize = 0;
    proof {
        assert(bytes@.skip(0) =~= bytes@);
    }
    while bytes.len() - i >= 3
        invariant
            i <= bytes@.len(),
            b64url_of(bytes@) == out@ + b64url_of(bytes@.skip(i as int)),
        decreases bytes@.len() - i,
    {
        let b0 = bytes[i] as u32;
        let b1 = bytes[i + 1] as u32;
        let b2 = bytes[i + 2] as u32;
        proof {
            assert(bytes@.skip(i as int)[0] == bytes@[i as int]);
            assert(bytes@.skip(i as int)[1] == bytes@[i as int + 1]);
            assert(bytes@.skip(i as int)[2] == bytes@[i as int + 2]);
            assert(bytes@.skip(i as int).skip(3) =~= bytes@.skip(i as int + 3));
        }
        out.push(b64_char_exec(b0 / 4));
        out.push(b64_char_exec((b0 % 4) * 16 + b1 / 16));
        out.push(b64_char_exec((b1 % 16) * 4 + b2 / 64));
        out.push(b64_char_exec(b2 % 64));
        proof {
            assert(b64url_of(bytes@) =~= out@ + b64url_of(bytes@.skip(i as int + 3)));
        }
        i = i + 3;
    }
    let rem = bytes.len() - i;
    if rem == 1 {
        let b0 = bytes[i] as u32;
        proof {
            assert(bytes@.skip(i as int).len() == 1);
            assert(bytes@.skip(i as int)[0] == bytes@[i as int]);
        }
        out.push(b64_char_exec(b0 / 4));
        out.push(b64_char_exec((b0 % 4) * 16));
        proof {
            assert(b64url_of(bytes@) =~= out@);
        }
    } else if rem == 2 {
        let b0 = bytes[i] as u32;
        let b1 = bytes[i + 1] as u32;
        proof {
            assert(bytes@.skip(i as int).len() == 2);
            assert(bytes@.skip(i as int)[0] == bytes@[i as int]);
            assert(bytes@.skip(i as int)[1] == bytes@[i as int + 1]);
        }
        out.push(b64_char_exec(b0 / 4));
        out.push(b64_char_exec((b0 % 4) * 16 + b1 / 16));
        out.push(b64_char_exec((b1 % 16) * 4));
        proof {
            assert(b64url_of(bytes@) =~= out@);
        }
    } else {
        proof {
            assert(bytes@.skip(i as int).len() == 0);
            assert(b64url_of(bytes@) =~= out@);
        }
    }
    out
}

/// Decodes unpadded base64url characters; `None` exactly when the strict
/// decoding rejects the input.
pub fn b64url_decode(s: &Vec<char>) -> (r: Option<Vec<u8>>)
    ensures
        match r {
            Some(v) => b64url_decode_spec(s@) == Some(v@),
            None => b64url_decode_spec(s@) is None,
        },
{
    let mut out: Vec<u8> = Vec::new();
    let mut i: usize = 0;
    proof {
        assert(s@.skip(0) =~= s@);
    }
    while s.len() - i >= 4
        invariant
            i <= s@.len(),
            b64url_decode_spec(s@) == match b64url_decode_spec(s@.skip(i as int)) {
                Some(rest) => Some(out@ + rest),
                None => None::<Seq<u8>>,
            },
        decreases s@.len() - i,
    {
        proof {
            assert(s@.skip(i as int)[0] == s@[i as int]);
            assert(s@.skip(i as int)[1] == s@[i as int + 1]);
            assert(s@.skip(i as int)[2] == s@[i as int + 2]);
            assert(s@.skip(i as int)[3] == s@[i as int + 3]);
            assert(s@.skip(i as int).skip(4) =~= s@.skip(i as int + 4));
        }
        let v0 = match b64_val_exec(s[i]) {
            Some(v) => v,
            None => {
                return None;
            },
        };
        let v1 = match b64_val_exec(s[i + 1]) {
            Some(v) => v,
            None => {
                return None;
            },
        };
        let v2 = match b64_val_exec(s[i + 2]) {
            Some(v) => v,
            None => {
                return None;
            },
        };
        let v3 = match b64_val_exec(s[i + 3]) {
            Some(v) => v,
            None => {
                return None;
            },
        };
        out.push((v0 * 4 + v1 / 16) as u8);
        out.push(((v1 % 16) * 16 + v2 / 4) as u8);
        out.push(((v2 % 4) * 64 + v3) as u8);
        proof {
            let rest_opt = b64url_decode_spec(s@.skip(i as int + 4));
            if rest_opt is Some {
                assert(out@ + rest_opt->0 =~= out@.subrange(0, out@.len() - 3) + (seq![
                    (v0 * 4 + v1 / 16) as u8,
                    ((v1 % 16) * 16 + v2 / 4) as u8,
                    ((v2 % 4) * 64 + v3) as u8,
                ] + rest_opt->0));
            }
        }
        i = i + 4;
    }
    let rem = s.len() - i;
    if rem == 0 {
        proof {
            assert(s@.skip(i as int).len() == 0);
            assert(b64url_decode_spec(s@) == Some(out@ + Seq::<u8>::empty()));
            assert(out@ + Seq::<u8>::empty() =~= out@);
        }
        Some(out)
    } else if rem == 1 {
        None
    } else if rem == 2 {
        proof {
            assert(s@.skip(i as int)[0] == s@[i as int]);
            assert(s@.skip(i as int)[1] == s@[i as int + 1]);
        }
        let v0 = match b64_val_exec(s[i]) {
            Some(v) => v,
            None => {
                return None;
            },
        };
        let v1 = match b64_val_exec(s[i + 1]) {
            Some(v) => v,
            None => {
                return None;
            },
        };
        if v1 % 16 != 0 {
            return None;
        }
        out.push((v0 * 4 + v1 / 16) as u8);
        proof {
            let tail = b64url_decode_spec(s@.skip(i as int))->0;
            assert(out@ =~= out@.subrange(0, out@.len() - 1) + tail);
        }
        Some(out)
    } else {
        proof {
            assert(s@.skip(i as int)[0] == s@[i as int]);
            assert(s@.skip(i as int)[1] == s@[i as int + 1]);
            assert(s@.skip(i as int)[2] == s@[i as int + 2]);
        }
        let v0 = match b64_val_exec(s[i]) {
            Some(v) => v,
            None => {
                return None;
            },
        };
        let v1 = match b64_val_exec(s[i + 1]) {
            Some(v) => v,
            None => {
                return None;
            },
        };
        let v2 = match b64_val_exec(s[i + 2]) {
            Some(v) => v,
            None => {
                return None;
            },
        };
        if v2 % 4 != 0 {
            return None;
        }
        out.push((v0 * 4 + v1 / 16) as u8);
        out.push(((v1 % 16) * 16 + v2 / 4) as u8);
        proof {
            let tail = b64url_decode_spec(s@.skip(i as int))->0;
            assert(out@ =~= out@.subrange(0, out@.len() - 2) + tail);
        }
        Some(out)
    }
}

/// A base64url character is recovered from its value.
pub proof fn lemma_b64_val_char(c: char)
    requires
        b64_val(c) >= 0,
    ensures
        b64_char(b64_val(c)) == c,
        b64_val(c) < 64,
{
    assert(b64_code(b64_val(c)) == c as int);
    assert((((c as int) as u8) as char) as u32 == c as u32);
    crate::strutil::lemma_char_code_inj(((c as int) as u8) as char, c);
}

/// Strict decoding only accepts canonical encodings: encoding a decoding
/// result gives the input back.
pub proof fn lemma_b64url_decode_canonical(s: Seq<char>)
    requires
        b64url_decode_spec(s) is Some,
    ensures
        b64url_of(b64url_decode_spec(s)->0) == s,
    decreases s.len(),
{
    let b = b64url_decode_spec(s)->0;
    if s.len() == 0 {
        assert(b64url_of(b) =~= s);
    } else if s.len() == 2 {
        let v0 = b64_val(s[0]);
        let v1 = b64_val(s[1]);
        lemma_b64_val_char(s[0]);
        lemma_b64_val_char(s[1]);
        let b0 = v0 * 4 + v1 / 16;
        assert(0 <= b0 < 256) by (nonlinear_arith)
            requires
                0 <= v0 < 64 && 0 <= v1 < 64 && b0 == v0 * 4 + v1 / 16,
        ;
        assert(b == seq![b0 as u8]);
        assert(b.len() == 1 && b[0] == b0 as u8);
        assert(b0 / 4 == v0 && b0 % 4 == v1 / 16) by (nonlinear_arith)
            requires
                b0 == v0 * 4 + v1 / 16 && 0 <= v0 && 0 <= v1 < 64,
        ;
        assert(v1 % 16 == 0);
        assert((b0 % 4) * 16 == v1) by (nonlinear_arith)
            requires
                b0 % 4 == v1 / 16 && v1 % 16 == 0 && 0 <= v1 < 64,
        ;
        assert(b64url_of(b) =~= s);
    } else if s.len() == 3 {
        let v0 = b64_val(s[0]);
        let v1 = b64_val(s[1]);
        let v2 = b64_val(s[2]);
        lemma_b64_val_char(s[0]);
        lemma_b64_val_char(s[1]);
        lemma_b64_val_char(s[2]);
        let b0 = v0 * 4 + v1 / 16;
        let b1 = (v1 % 16) * 16 + v2 / 4;
        assert(0 <= b0 < 256 && 0 <= b1 < 256) by (nonlinear_arith)
            requires
                0 <= v0 < 64 && 0 <= v1 < 64 && 0 <= v2 < 64 && b0 == v0 * 4 + v1 / 16 && b1 == (
                v1 % 16) * 16 + v2 / 4,
        ;
        assert(b == seq![b0 as u8, b1 as u8]);
        assert(b.len() == 2 && b[0] == b0 as u8 && b[1] == b1 as u8);
        assert(b0 / 4 == v0 && b0 % 4 == v1 / 16) by (nonlinear_arith)
            requires
                b0 == v0 * 4 + v1 / 16 && 0 <= v0 && 0 <= v1 < 64,
        ;
        assert(b1 / 16 == v1 % 16 && b1 % 16 == v2 / 4) by (nonlinear_arith)
            requires
                b1 == (v1 % 16) * 16 + v2 / 4 && 0 <= v1 && 0 <= v2 < 64,
        ;
        assert((b0 % 4) * 16 + b1 / 16 == v1) by (nonlinear_arith)
            requires
                b0 % 4 == v1 / 16 && b1 / 16 == v1 % 16 && 0 <= v1 < 64,
        ;
        assert(v2 % 4 == 0);
        assert((b1 % 16) * 4 == v2) by (nonlinear_arith)
            requires
                b1 % 16 == v2 / 4 && v2 % 4 == 0 && 0 <= v2 < 64,
        ;
        assert(b64url_of(b) =~= s);
    } else if s.len() >= 4 {
        let v0 = b64_val(s[0]);
        let v1 = b64_val(s[1]);
        let v2 = b64_val(s[2]);
        let v3 = b64_val(s[3]);
        lemma_b64_val_char(s[0]);
        lemma_b64_val_char(s[1]);
        lemma_b64_val_char(s[2]);
        lemma_b64_val_char(s[3]);
        lemma_b64url_decode_canonical(s.skip(4));
        let rest = b64url_decode_spec(s.skip(4))->0;
        let b0 = v0 * 4 + v1 / 16;
        let b1 = (v1 % 16) * 16 + v2 / 4;
        let b2 = (v2 % 4) * 64 + v3;
        assert(0 <= b0 < 256 && 0 <= b1 < 256 && 0 <= b2 < 256) by (nonlinear_arith)
            requires
                0 <= v0 < 64 && 0 <= v1 < 64 && 0 <= v2 < 64 && 0 <= v3 < 64 && b0 == v0 * 4 + v1
                    / 16 && b1 == (v1 % 16) * 16 + v2 / 4 && b2 == (v2 % 4) * 64 + v3,
        ;
        assert(b == seq![b0 as u8, b1 as u8, b2 as u8] + rest);
        assert(b.len() >= 3 && b[0] == b0 as u8 && b[1] == b1 as u8 && b[2] == b2 as u8);
        assert(b.skip(3) =~= rest);
        assert(b0 / 4 == v0 && b0 % 4 == v1 / 16) by (nonlinear_arith)
            requires
                b0 == v0 * 4 + v1 / 16 && 0 <= v0 && 0 <= v1 < 64,
        ;
        assert(b1 / 16 == v1 % 16 && b1 % 16 == v2 / 4) by (nonlinear_arith)
            requires
                b1 == (v1 % 16) * 16 + v2 / 4 && 0 <= v1 && 0 <= v2 < 64,
        ;
        assert(b2 / 64 == v2 % 4 && b2 % 64 == v3) by (nonlinear_arith)
            requires
                b2 == (v2 % 4) * 64 + v3 && 0 <= v2 && 0 <= v3 < 64,
        ;
        assert((b0 % 4) * 16 + b1 / 16 == v1) by (nonlinear_arith)
            requires
                b0 % 4 == v1 / 16 && b1 / 16 == v1 % 16 && 0 <= v1 < 64,
        ;
        assert((b1 % 16) * 4 + b2 / 64 == v2) by (nonlinear_arith)
            requires
                b1 % 16 == v2 / 4 && b2 / 64 == v2 % 4 && 0 <= v2 < 64,
        ;
        assert(b64url_of(b) =~= seq![s[0], s[1], s[2], s[3]] + b64url_of(rest));
        assert(seq![s[0], s[1], s[2], s[3]] + s.skip(4) =~= s);
    }
}

} // verus!
