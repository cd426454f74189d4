//! JSON string text: escaping exactly as the service's JSON bodies need
//! it, and a strict scanner that inverts the escaping.
//!
//! A character is escaped the way common JSON serialisers do it: `"` and
//! `\` get a backslash, the five named control escapes are used where they
//! exist, every other control character becomes `\u00XX` with lowercase
//! hex digits, and everything else is passed through unchanged. The
//! scanner accepts exactly the escaped form (it rejects raw control
//! characters, uppercase hex and non-canonical `\uXXXX` uses), so
//! scanning inverts escaping.

use crate::strutil::lemma_char_code_inj;
use vstd::prelude::*;

verus! {

/// The lowercase hex digit character for a value below sixteen.
pub open spec fn hex_digit_char(d: int) -> char {
    if d == 0 {
        '0'
    } else if d == 1 {
        '1'
    } else if d == 2 {
        '2'
    } else if d == 3 {
        '3'
    } else if d == 4 {
        '4'
    } else if d == 5 {
        '5'
    } else if d == 6 {
        '6'
    } else if d == 7 {
        '7'
    } else if d == 8 {
        '8'
    } else if d == 9 {
        '9'
    } else if d == 10 {
        'a'
    } else if d == 11 {
        'b'
    } else if d == 12 {
        'c'
    } else if d == 13 {
        'd'
    } else if d == 14 {
        'e'
    } else {
        'f'
    }
}

/// The value of a lowercase hex digit character, or -1.
pub open spec fn hex_digit_val(c: char) -> int {
    let u = c as int;
    if 48 <= u <= 57 {
        u - 48
    } else if 97 <= u <= 102 {
        (u - 97) + 10
    } else {
        -1
    }
}

/// Hex digit characters and values are inverse.
pub proof fn lemma_hex_digit_char_val(d: int)
    requires
        0 <= d < 16,
    ensures
        hex_digit_val(hex_digit_char(d)) == d,
{
}

/// A lowercase hex digit character is recovered from its value.
pub proof fn lemma_hex_digit_val_char(c: char)
    requires
        hex_digit_val(c) >= 0,
    ensures
        hex_digit_char(hex_digit_val(c)) == c,
        hex_digit_val(c) < 16,
{
}

/// The replacement character for the named single-letter escapes.
pub open spec fn unescape_named(e: char) -> Option<char> {
    if e == '"' {
        Some('"')
    } else if e == '\\' {
        Some('\\')
    } else if e == 'b' {
        Some('\u{0008}')
    } else if e == 't' {
        Some('\u{0009}')
    } else if e == 'n' {
        Some('\u{000A}')
    } else if e == 'f' {
        Some('\u{000C}')
    } else if e == 'r' {
        Some('\u{000D}')
    } else {
        None
    }
}

/// How one character appears inside a JSON string literal.
pub open spec fn esc_char(c: char) -> Seq<char> {
    if c == '"' {
        seq!['\\', '"']
    } else if c == '\\' {
        seq!['\\', '\\']
    } else if c == '\u{0008}' {
        seq!['\\', 'b']
    } else if c == '\u{0009}' {
        seq!['\\', 't']
    } else if c == '\u{000A}' {
        seq!['\\', 'n']
    } else if c == '\u{000C}' {
        seq!['\\', 'f']
    } else if c == '\u{000D}' {
        seq!['\\', 'r']
    } else if (c as u32) < 0x20 {
        seq![
            '\\',
            'u',
            '0',
            '0',
            hex_digit_char(((c as u32) / 16) as int),
            hex_digit_char(((c as u32) % 16) as int),
        ]
    } else {
        seq![c]
    }
}

/// How a whole string appears inside a JSON string literal.
pub open spec fn esc_str(s: Seq<char>) -> Seq<char>
    decreases s.len(),
{
    if s.len() == 0 {
        Seq::<char>::empty()
    } else {
        esc_char(s[0]) + esc_str(s.drop_first())
    }
}

/// Escaping one more character appends its escape.
pub proof fn lemma_esc_str_push(t: Seq<char>, c: char)
    ensures
        esc_str(t.push(c)) == esc_str(t) + esc_char(c),
    decreases t.len(),
{
    if t.len() == 0 {
        assert(t.push(c)[0] == c);
        assert(t.push(c).drop_first() =~= Seq::<char>::empty());
        assert(esc_str(Seq::<char>::empty()) =~= Seq::<char>::empty());
        assert(esc_str(t.push(c)) =~= esc_str(t) + esc_char(c));
    } else {
        lemma_esc_str_push(t.drop_first(), c);
        assert(t.push(c)[0] == t[0]);
        assert(t.push(c).drop_first() =~= t.drop_first().push(c));
        assert(esc_char(t[0]) + (esc_str(t.drop_first()) + esc_char(c)) =~= (esc_char(t[0])
            + esc_str(t.drop_first())) + esc_char(c));
    }
}

/// Scans the body of a JSON string literal up to and past its closing
/// quote: `Some((content, rest))` exactly when the input starts with the
/// canonical escaping of `content`, then `"`, then `rest`.
pub open spec fn scan_string(s: Seq<char>) -> Option<(Seq<char>, Seq<char>)>
    decreases s.len(),
{
    if s.len() == 0 {
        None
    } else if s[0] == '"' {
        Some((Seq::<char>::empty(), s.drop_first()))
    } else if s[0] == '\\' {
        if s.len() < 2 {
            None
        } else if unescape_named(s[1]) is Some {
            match scan_string(s.skip(2)) {
                Some((content, rest)) => Some((seq![unescape_named(s[1])->0] + content, rest)),
                None => None,
            }
        } else if s[1] == 'u' {
            if s.len() < 6 {
                None
            } else if s[2] == '0' && s[3] == '0' && hex_digit_val(s[4]) >= 0 && hex_digit_val(s[5])
                >= 0 {
                let v = hex_digit_val(s[4]) * 16 + hex_digit_val(s[5]);
                if v < 0x20 && v != 8 && v != 9 && v != 10 && v != 12 && v != 13 {
                    match scan_string(s.skip(6)) {
                        Some((content, rest)) => Some((seq![(v as u8) as char] + content, rest)),
                        None => None,
                    }
                } else {
                    None
                }
            } else {
                None
            }
        } else {
            None
        }
    } else if (s[0] as u32) < 0x20 {
        None
    } else {
        match scan_string(s.drop_first()) {
            Some((content, rest)) => Some((seq![s[0]] + content, rest)),
            None => None,
        }
    }
}

/// What the scanner accepts is the canonical escaping of its result.
pub proof fn lemma_scan_string_sound(s: Seq<char>)
    requires
        scan_string(s) is Some,
    ensures
        s == esc_str((scan_string(s)->0).0) + seq!['"'] + (scan_string(s)->0).1,
    decreases s.len(),
{
    let (content, rest) = scan_string(s)->0;
    if s[0] == '"' {
        assert(s =~= esc_str(content) + seq!['"'] + rest);
    } else if s[0] == '\\' {
        if unescape_named(s[1]) is Some {
            let c = unescape_named(s[1])->0;
            lemma_scan_string_sound(s.skip(2));
            let (content2, _) = scan_string(s.skip(2))->0;
            assert(esc_char(c) =~= seq![s[0], s[1]]);
            assert((seq![c] + content2).drop_first() =~= content2);
            assert((seq![c] + content2)[0] == c);
            assert(esc_str(content) == esc_char(c) + esc_str(content2));
            assert(s =~= seq![s[0], s[1]] + s.skip(2));
            assert(s =~= esc_str(content) + seq!['"'] + rest);
        } else {
            let v = hex_digit_val(s[4]) * 16 + hex_digit_val(s[5]);
            let c = (v as u8) as char;
            lemma_scan_string_sound(s.skip(6));
            let (content2, _) = scan_string(s.skip(6))->0;
            lemma_hex_digit_val_char(s[4]);
            lemma_hex_digit_val_char(s[5]);
            assert(0 <= v < 0x20);
            assert(c as u32 == v);
            assert((c as u32) / 16 == hex_digit_val(s[4]) && (c as u32) % 16 == hex_digit_val(
                s[5],
            )) by (nonlinear_arith)
                requires
                    c as u32 == hex_digit_val(s[4]) * 16 + hex_digit_val(s[5]),
                    0 <= hex_digit_val(s[4]),
                    0 <= hex_digit_val(s[5]) < 16,
            ;
            assert(esc_char(c) =~= seq![s[0], s[1], s[2], s[3], s[4], s[5]]);
            assert((seq![c] + content2).drop_first() =~= content2);
            assert((seq![c] + content2)[0] == c);
            assert(esc_str(content) == esc_char(c) + esc_str(content2));
            assert(s =~= seq![s[0], s[1], s[2], s[3], s[4], s[5]] + s.skip(6));
            assert(s =~= esc_str(content) + seq!['"'] + rest);
        }
    } else {
        let c = s[0];
        lemma_scan_string_sound(s.drop_first());
        let (content2, _) = scan_string(s.drop_first())->0;
        assert(esc_char(c) =~= seq![c]);
        assert((seq![c] + content2).drop_first() =~= content2);
        assert((seq![c] + content2)[0] == c);
        assert(esc_str(content) == esc_char(c) + esc_str(content2));
        assert(s =~= seq![c] + s.drop_first());
        assert(s =~= esc_str(content) + seq!['"'] + rest);
    }
}

/// The scanner accepts every canonical escaping.
pub proof fn lemma_scan_string_complete(content: Seq<char>, rest: Seq<char>)
    ensures
        scan_string(esc_str(content) + seq!['"'] + rest) == Some((content, rest)),
    decreases content.len(),
{
    let s = esc_str(content) + seq!['"'] + rest;
    if content.len() == 0 {
        assert(s =~= seq!['"'] + rest);
        assert(s[0] == '"');
        assert(s.drop_first() =~= rest);
    } else {
        let c = content[0];
        let content2 = content.drop_first();
        assert(esc_str(content) == esc_char(c) + esc_str(content2));
        lemma_scan_string_complete(content2, rest);
        let s2 = esc_str(content2) + seq!['"'] + rest;
        if c == '"' || c == '\\' || c == '\u{0008}' || c == '\u{0009}' || c == '\u{000A}' || c
            == '\u{000C}' || c == '\u{000D}' {
            assert(esc_char(c).len() == 2 && esc_char(c)[0] == '\\');
            assert(s[0] == '\\' && s[1] == esc_char(c)[1]);
            assert(unescape_named(esc_char(c)[1]) == Some(c));
            assert(s.skip(2) =~= s2);
            assert(seq![c] + content2 =~= content);
        } else if (c as u32) < 0x20 {
            let hi = ((c as u32) / 16) as int;
            let lo = ((c as u32) % 16) as int;
            assert(0 <= hi < 2 && 0 <= lo < 16);
            lemma_hex_digit_char_val(hi);
            lemma_hex_digit_char_val(lo);
            assert(esc_char(c).len() == 6);
            assert(s[0] == '\\' && s[1] == 'u' && s[2] == '0' && s[3] == '0' && s[4]
                == hex_digit_char(hi) && s[5] == hex_digit_char(lo));
            assert(unescape_named('u') is None);
            let v = hex_digit_val(s[4]) * 16 + hex_digit_val(s[5]);
            assert(v == hi * 16 + lo);
            assert(v == c as u32) by (nonlinear_arith)
                requires
                    v == hi * 16 + lo,
                    hi == ((c as u32) / 16) as int,
                    lo == ((c as u32) % 16) as int,
            ;
            assert(v < 0x20);
            assert(v != 8 && v != 9 && v != 10 && v != 12 && v != 13) by {
                if c as u32 == 8 {
                    lemma_char_code_inj(c, '\u{0008}');
                }
                if c as u32 == 9 {
                    lemma_char_code_inj(c, '\u{0009}');
                }
                if c as u32 == 10 {
                    lemma_char_code_inj(c, '\u{000A}');
                }
                if c as u32 == 12 {
                    lemma_char_code_inj(c, '\u{000C}');
                }
                if c as u32 == 13 {
                    lemma_char_code_inj(c, '\u{000D}');
                }
            };
            assert(((v as u8) as char) as u32 == c as u32);
            lemma_char_code_inj((v as u8) as char, c);
            assert(s.skip(6) =~= s2);
            assert(seq![c] + content2 =~= content);
        } else {
            assert(esc_char(c) =~= seq![c]);
            assert(s[0] == c);
            assert(c != '"' && c != '\\');
            assert(s.drop_first() =~= s2);
            assert(seq![c] + content2 =~= content);
        }
    }
}

/// The lowercase hex digit character for a value below sixteen,
/// executable form.
fn hex_digit_exec(d: u32) -> (c: char)
    requires
        d < 16,
    ensures
        c == hex_digit_char(d as int),
{
    match d {
        0 => '0',
        1 => '1',
        2 => '2',
        3 => '3',
        4 => '4',
        5 => '5',
        6 => '6',
        7 => '7',
        8 => '8',
        9 => '9',
        10 => 'a',
        11 => 'b',
        12 => 'c',
        13 => 'd',
        14 => 'e',
        _ => 'f',
    }
}

/// The value of a lowercase hex digit character, executable form.
fn hex_val_exec(c: char) -> (r: Option<u32>)
    ensures
        match r {
            Some(v) => hex_digit_val(c) == v as int && v < 16,
            None => hex_digit_val(c) < 0,
        },
{
    let u = c as u32;
    if 48 <= u && u <= 57 {
        Some(u - 48)
    } else if 97 <= u && u <= 102 {
        Some((u - 97) + 10)
    } else {
        None
    }
}

/// Appends the escape of one character to `out`.
fn esc_char_push(out: &mut Vec<char>, c: char)
    ensures
        final(out)@ == old(out)@ + esc_char(c),
{
    if c == '"' {
        out.push('\\');
        out.push('"');
    } else if c == '\\' {
        out.push('\\');
        out.push('\\');
    } else if c == '\u{0008}' {
        out.push('\\');
        out.push('b');
    } else if c == '\u{0009}' {
        out.push('\\');
        out.push('t');
    } else if c == '\u{000A}' {
        out.push('\\');
        out.push('n');
    } else if c == '\u{000C}' {
        out.push('\\');
        out.push('f');
    } else if c == '\u{000D}' {
        out.push('\\');
        out.push('r');
    } else if (c as u32) < 0x20 {
        let u = c as u32;
        out.push('\\');
        out.push('u');
        out.push('0');
        out.push('0');
        out.push(hex_digit_exec(u / 16));
        out.push(hex_digit_exec(u % 16));
    } else {
        out.push(c);
    }
    proof {
        assert(out@ =~= old(out)@ + esc_char(c));
    }
}

/// Appends the escaped form of `s` to `out`.
pub fn append_escaped(out: &mut Vec<char>, s: &str)
    ensures
        final(out)@ == old(out)@ + esc_str(s@),
{
    let chars = crate::strutil::str_chars(s);
    let mut i: usize = 0;
    proof {
        assert(s@.take(0) =~= Seq::<char>::empty());
        assert(out@ =~= old(out)@ + esc_str(s@.take(0)));
    }
    while i < chars.len()
        invariant
            i <= chars@.len(),
            chars@ == s@,
            out@ == old(out)@ + esc_str(s@.take(i as int)),
        decreases chars@.len() - i,
    {
        esc_char_push(out, chars[i]);
        proof {
            lemma_esc_str_push(s@.take(i as int), s@[i as int]);
            assert(s@.take(i as int + 1) =~= s@.take(i as int).push(s@[i as int]));
            assert(old(out)@ + esc_str(s@.take(i as int)) + esc_char(s@[i as int]) =~= old(out)@
                + esc_str(s@.take(i as int + 1)));
        }
        i = i + 1;
    }
    proof {
        assert(s@.take(i as int) =~= s@);
    }
}

/// Scans an escaped string body in `v` starting at `i`, past its closing
/// quote; mirrors [`scan_string`] on the remaining input.
pub fn scan_string_exec(v: &Vec<char>, i: usize) -> (r: Option<(Vec<char>, usize)>)
    requires
        i <= v@.len(),
    ensures
        match r {
            Some((content, j)) => i <= j <= v@.len() && scan_string(v@.skip(i as int)) == Some(
                (content@, v@.skip(j as int)),
            ),
            None => scan_string(v@.skip(i as int)) is None,
        },
{
    let mut content: Vec<char> = Vec::new();
    let mut j: usize = i;
    loop
        invariant
            i <= j <= v@.len(),
            scan_string(v@.skip(i as int)) == match scan_string(v@.skip(j as int)) {
                Some((c, rest)) => Some((content@ + c, rest)),
                None => None::<(Seq<char>, Seq<char>)>,
            },
        decreases v@.len() - j,
    {
        if j >= v.len() {
            proof {
                assert(v@.skip(j as int).len() == 0);
            }
            return None;
        }
        let c = v[j];
        proof {
            assert(v@.skip(j as int)[0] == v@[j as int]);
        }
        if c == '"' {
            proof {
                assert(v@.skip(j as int).drop_first() =~= v@.skip(j as int + 1));
                assert(content@ + Seq::<char>::empty() =~= content@);
            }
            return Some((content, j + 1));
        } else if c == '\\' {
            if v.len() - j < 2 {
                proof {
                    assert(v@.skip(j as int).len() < 2);
                }
                return None;
            }
            let e = v[j + 1];
            proof {
                assert(v@.skip(j as int)[1] == v@[j as int + 1]);
            }
            let named: Option<char> = if e == '"' {
                Some('"')
            } else if e == '\\' {
                Some('\\')
            } else if e == 'b' {
                Some('\u{0008}')
            } else if e == 't' {
                Some('\u{0009}')
            } else if e == 'n' {
                Some('\u{000A}')
            } else if e == 'f' {
                Some('\u{000C}')
            } else if e == 'r' {
                Some('\u{000D}')
            } else {
                None
            };
            proof {
                assert(named == unescape_named(e));
            }
            match named {
                Some(u) => {
                    content.push(u);
                    proof {
                        assert(v@.skip(j as int).skip(2) =~= v@.skip(j as int + 2));
                        let sc = scan_string(v@.skip(j as int + 2));
                        if sc is Some {
                            let c2 = (sc->0).0;
                            assert(content@ + c2 =~= content@.drop_last() + (seq![u] + c2));
                        }
                    }
                    j = j + 2;
                },
                None => {
                    if e != 'u' {
                        return None;
                    }
                    if v.len() - j < 6 {
                        proof {
                            assert(v@.skip(j as int).len() < 6);
                        }
                        return None;
                    }
                    proof {
                        assert(v@.skip(j as int)[2] == v@[j as int + 2]);
                        assert(v@.skip(j as int)[3] == v@[j as int + 3]);
                        assert(v@.skip(j as int)[4] == v@[j as int + 4]);
                        assert(v@.skip(j as int)[5] == v@[j as int + 5]);
                    }
                    if v[j + 2] != '0' || v[j + 3] != '0' {
                        return None;
                    }
                    let h4 = match hex_val_exec(v[j + 4]) {
                        Some(h) => h,
                        None => {
                            return None;
                        },
                    };
                    let h5 = match hex_val_exec(v[j + 5]) {
                        Some(h) => h,
                        None => {
                            return None;
                        },
                    };
                    let val = h4 * 16 + h5;
                    if !(val < 0x20 && val != 8 && val != 9 && val != 10 && val != 12 && val != 13)
                    {
                        return None;
                    }
                    let u = (val as u8) as char;
                    content.push(u);
                    proof {
                        assert(v@.skip(j as int).skip(6) =~= v@.skip(j as int + 6));
                        let sc = scan_string(v@.skip(j as int + 6));
                        if sc is Some {
                            let c2 = (sc->0).0;
                            assert(content@ + c2 =~= content@.drop_last() + (seq![u] + c2));
                        }
                    }
                    j = j + 6;
                },
            }
        } else if (c as u32) < 0x20 {
            return None;
        } else {
            content.push(c);
            proof {
                assert(v@.skip(j as int).drop_first() =~= v@.skip(j as int + 1));
                let sc = scan_string(v@.skip(j as int + 1));
                if sc is Some {
                    let c2 = (sc->0).0;
                    assert(content@ + c2 =~= content@.drop_last() + (seq![c] + c2));
                }
            }
            j = j + 1;
        }
    }
}

} // verus!
