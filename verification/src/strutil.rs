//! Character-level utilities: conversions between `String`, `Vec<char>` and
//! ASCII bytes, and decimal rendering/parsing of unsigned integers.
//!
//! The parsing and serialisation code of this crate works on `Vec<char>`
//! throughout; these helpers form the bridge to `String` and to byte
//! sequences.

use vstd::arithmetic::div_mod::lemma_fundamental_div_mod;
use vstd::prelude::*;

verus! {

/// Relies on `String::push`: appends exactly one character at the end.
#[verifier::external_body]
pub fn push_char(s: &mut String, c: char)
    ensures
        final(s)@ == old(s)@.push(c),
{
    s.push(c);
}

/// The characters of `s`, in order, as a vector.
pub fn str_chars(s: &str) -> (r: Vec<char>)
    ensures
        r@ == s@,
{
    let n = s.unicode_len();
    let mut r: Vec<char> = Vec::new();
    let mut i: usize = 0;
    while i < n
        invariant
            i <= n,
            n == s@.len(),
            r@ == s@.take(i as int),
        decreases n - i,
    {
        r.push(s.get_char(i));
        i = i + 1;
        proof {
            assert(r@ =~= s@.take(i as int));
        }
    }
    proof {
        assert(r@ =~= s@);
    }
    r
}

/// The characters of `v`, in order, as a `String`.
pub fn chars_to_string(v: &Vec<char>) -> (r: String)
    ensures
        r@ == v@,
{
    let mut r = String::new();
    let mut i: usize = 0;
    while i < v.len()
        invariant
            i <= v@.len(),
            r@ == v@.take(i as int),
        decreases v@.len() - i,
    {
        push_char(&mut r, v[i]);
        i = i + 1;
        proof {
            assert(r@ =~= v@.take(i as int));
        }
    }
    proof {
        assert(r@ =~= v@);
    }
    r
}

/// Holds when every character of `s` is an ASCII code point.
pub open spec fn ascii_chars(s: Seq<char>) -> bool {
    forall|i: int| #![trigger s[i]] 0 <= i < s.len() ==> (s[i] as u32) < 128
}

/// The byte with the same code as each (ASCII) character of `s`.
pub open spec fn ascii_bytes_of(s: Seq<char>) -> Seq<u8> {
    s.map_values(|c: char| c as u8)
}

/// The ASCII characters of `v`, each reinterpreted as one byte.
pub fn chars_to_bytes(v: &Vec<char>) -> (r: Vec<u8>)
    requires
        ascii_chars(v@),
    ensures
        r@ == ascii_bytes_of(v@),
{
    let mut r: Vec<u8> = Vec::new();
    let mut i: usize = 0;
    while i < v.len()
        invariant
            i <= v@.len(),
            ascii_chars(v@),
            r@ == ascii_bytes_of(v@.take(i as int)),
        decreases v@.len() - i,
    {
        r.push(v[i] as u8);
        i = i + 1;
        proof {
            assert(r@ =~= ascii_bytes_of(v@.take(i as int)));
        }
    }
    proof {
        assert(r@ =~= ascii_bytes_of(v@));
    }
    r
}

/// Characters with the same code point are the same character.
pub proof fn lemma_char_code_inj(a: char, b: char)
    requires
        a as u32 == b as u32,
    ensures
        a == b,
{
    broadcast use vstd::utf8::char_u32_cast;

    assert(((a as u32) as char) == a);
    assert(((b as u32) as char) == b);
}

/// Holds when `c` is a decimal digit.
pub open spec fn is_dec_digit(c: char) -> bool {
    '0' <= c <= '9'
}

/// The numeric value of the decimal digit `c`.
pub open spec fn dec_digit_val(c: char) -> int {
    c as int - '0' as int
}

/// The digit character for a value below ten.
pub open spec fn dec_digit_char(d: int) -> char {
    if d == 0 {
        '0'
    } else if d == 1 {
        '1'
    } else if d == 2 {
        '2'
    } else if d == 3 {
        '3'
    } else if d == 4 {
        '4'
    } else if d == 5 {
        '5'
    } else if d == 6 {
        '6'
    } else if d == 7 {
        '7'
    } else if d == 8 {
        '8'
    } else {
        '9'
    }
}

/// The digit character for a value below ten, executable form.
pub fn dec_digit_exec(d: usize) -> (c: char)
    requires
        d < 10,
    ensures
        c == dec_digit_char(d as int),
        is_dec_digit(c),
        dec_digit_val(c) == d,
{
    match d {
        0 => '0',
        1 => '1',
        2 => '2',
        3 => '3',
        4 => '4',
        5 => '5',
        6 => '6',
        7 => '7',
        8 => '8',
        _ => '9',
    }
}

/// Holds when `s` is one or more decimal digits.
pub open spec fn is_dec_digits(s: Seq<char>) -> bool {
    &&& s.len() > 0
    &&& forall|i: int| 0 <= i < s.len() ==> is_dec_digit(#[trigger] s[i])
}

/// The value of the digit string `s`, read as a decimal number.
pub open spec fn dec_value(s: Seq<char>) -> int
    decreases s.len(),
{
    if s.len() == 0 {
        0
    } else {
        dec_value(s.drop_last()) * 10 + dec_digit_val(s.last())
    }
}

/// The canonical decimal rendering of `n`: no sign, no leading zero.
pub open spec fn dec_chars_of(n: nat) -> Seq<char>
    decreases n,
{
    if n < 10 {
        seq![dec_digit_char(n as int)]
    } else {
        dec_chars_of(n / 10).push(dec_digit_char((n % 10) as int))
    }
}

/// The canonical rendering of `n` is made of digits and reads back as `n`.
pub proof fn lemma_dec_chars_of_value(n: nat)
    ensures
        is_dec_digits(dec_chars_of(n)),
        dec_value(dec_chars_of(n)) == n,
    decreases n,
{
    if n < 10 {
        let s = dec_chars_of(n);
        assert(s.drop_last().len() == 0);
        assert(dec_value(s.drop_last()) == 0);
        assert(s.last() == dec_digit_char(n as int));
    } else {
        lemma_dec_chars_of_value(n / 10);
        lemma_fundamental_div_mod(n as int, 10);
        let s = dec_chars_of(n);
        assert(s.drop_last() =~= dec_chars_of(n / 10));
        assert(dec_digit_val(dec_digit_char((n % 10) as int)) == n % 10);
    }
}

/// The value of a digit string is never negative.
pub proof fn lemma_dec_value_nonneg(s: Seq<char>)
    requires
        forall|i: int| 0 <= i < s.len() ==> is_dec_digit(#[trigger] s[i]),
    ensures
        dec_value(s) >= 0,
    decreases s.len(),
{
    if s.len() > 0 {
        assert(forall|i: int|
            0 <= i < s.drop_last().len() ==> is_dec_digit(#[trigger] s.drop_last()[i]));
        lemma_dec_value_nonneg(s.drop_last());
    }
}

/// Extending a digit string can only increase its value; used to justify
/// rejecting an input once a prefix already overflows.
proof fn lemma_dec_value_lower_bound(s: Seq<char>, k: int)
    requires
        0 < k <= s.len(),
        forall|i: int| 0 <= i < s.len() ==> is_dec_digit(#[trigger] s[i]),
    ensures
        dec_value(s) >= dec_value(s.take(k)),
    decreases s.len() - k,
{
    if k == s.len() {
        assert(s.take(k) =~= s);
    } else {
        lemma_dec_value_lower_bound(s, k + 1);
        assert(s.take(k + 1).drop_last() =~= s.take(k));
        assert(s.take(k + 1).last() == s[k]);
        assert(forall|i: int|
            0 <= i < s.take(k).len() ==> is_dec_digit(#[trigger] s.take(k)[i]));
        lemma_dec_value_nonneg(s.take(k));
        assert(dec_digit_val(s[k]) >= 0);
    }
}

/// Parses `v` as a decimal `usize`; `None` when `v` is not all digits,
/// is empty, or encodes a value above `usize::MAX`.
pub fn parse_usize(v: &Vec<char>) -> (r: Option<usize>)
    ensures
        match r {
            Some(n) => is_dec_digits(v@) && dec_value(v@) == n,
            None => !(is_dec_digits(v@) && dec_value(v@) <= usize::MAX),
        },
{
    if v.len() == 0 {
        return None;
    }
    let mut acc: usize = 0;
    let mut i: usize = 0;
    while i < v.len()
        invariant
            i <= v@.len(),
            v@.len() > 0,
            forall|j: int| 0 <= j < i ==> is_dec_digit(#[trigger] v@[j]),
            acc == dec_value(v@.take(i as int)),
        decreases v@.len() - i,
    {
        let c = v[i];
        if c < '0' || c > '9' {
            proof {
                assert(!is_dec_digit(v@[i as int]));
            }
            return None;
        }
        let d: usize = (c as u32 - '0' as u32) as usize;
        proof {
            assert(v@.take(i as int + 1).drop_last() =~= v@.take(i as int));
            assert(v@.take(i as int + 1).last() == v@[i as int]);
            assert(dec_digit_val(v@[i as int]) == d);
        }
        if acc > (usize::MAX - d) / 10 {
            proof {
                assert(dec_value(v@.take(i as int + 1)) == acc * 10 + d);
                assert(acc * 10 + d > usize::MAX) by {
                    lemma_fundamental_div_mod((usize::MAX - d) as int, 10);
                };
                if is_dec_digits(v@) {
                    lemma_dec_value_lower_bound(v@, i as int + 1);
                }
            }
            return None;
        }
        proof {
            assert(acc * 10 + d <= usize::MAX) by {
                lemma_fundamental_div_mod((usize::MAX - d) as int, 10);
            };
        }
        acc = acc * 10 + d;
        i = i + 1;
    }
    proof {
        assert(v@.take(i as int) =~= v@);
    }
    Some(acc)
}

/// Helper fact: reversing after a push prepends the pushed element.
proof fn lemma_rev_push(s: Seq<char>, c: char)
    ensures
        (s.push(c)).reverse() =~= seq![c] + s.reverse(),
{
}

/// The canonical decimal rendering of `n`, as characters.
pub fn usize_to_dec_chars(n: usize) -> (r: Vec<char>)
    ensures
        r@ == dec_chars_of(n as nat),
{
    let mut rev: Vec<char> = Vec::new();
    let mut m: usize = n;
    proof {
        assert(dec_chars_of(n as nat) =~= dec_chars_of(n as nat) + rev@.reverse());
    }
    while m >= 10
        invariant
            dec_chars_of(n as nat) == dec_chars_of(m as nat) + rev@.reverse(),
        decreases m,
    {
        let c = dec_digit_exec(m % 10);
        proof {
            lemma_rev_push(rev@, c);
            assert(dec_chars_of(m as nat) == dec_chars_of((m / 10) as nat).push(c));
            assert(dec_chars_of((m / 10) as nat) + (rev@.push(c)).reverse() =~= dec_chars_of(
                m as nat,
            ) + rev@.reverse());
        }
        rev.push(c);
        m = m / 10;
    }
    let c0 = dec_digit_exec(m);
    proof {
        assert(dec_chars_of(m as nat) =~= seq![c0]);
    }
    let mut r: Vec<char> = Vec::new();
    r.push(c0);
    let mut i: usize = rev.len();
    proof {
        assert(r@ =~= seq![c0] + rev@.reverse().take(0));
    }
    while i > 0
        invariant
            i <= rev@.len(),
            r@ == seq![c0] + rev@.reverse().take(rev@.len() - i),
        decreases i,
    {
        i = i - 1;
        r.push(rev[i]);
        proof {
            assert(rev@.reverse()[rev@.len() - 1 - i as int] == rev@[i as int]);
            assert(r@ =~= seq![c0] + rev@.reverse().take(rev@.len() - i));
        }
    }
    proof {
        assert(rev@.reverse().take(rev@.len() - 0) =~= rev@.reverse());
        assert(r@ =~= seq![c0] + rev@.reverse());
        assert(dec_chars_of(n as nat) =~= seq![c0] + rev@.reverse());
    }
    r
}

/// Parses `v` as a decimal `u64`; `None` when `v` is not all digits, is
/// empty, or encodes a value above `u64::MAX`.
pub fn parse_u64(v: &Vec<char>) -> (r: Option<u64>)
    ensures
        match r {
            Some(n) => is_dec_digits(v@) && dec_value(v@) == n,
            None => !(is_dec_digits(v@) && dec_value(v@) <= u64::MAX),
        },
{
    if v.len() == 0 {
        return None;
    }
    let mut acc: u64 = 0;
    let mut i: usize = 0;
    while i < v.len()
        invariant
            i <= v@.len(),
            v@.len() > 0,
            forall|j: int| 0 <= j < i ==> is_dec_digit(#[trigger] v@[j]),
            acc == dec_value(v@.take(i as int)),
        decreases v@.len() - i,
    {
        let c = v[i];
        if c < '0' || c > '9' {
            proof {
                assert(!is_dec_digit(v@[i as int]));
            }
            return None;
        }
        let d: u64 = (c as u32 - '0' as u32) as u64;
        proof {
            assert(v@.take(i as int + 1).drop_last() =~= v@.take(i as int));
            assert(v@.take(i as int + 1).last() == v@[i as int]);
            assert(dec_digit_val(v@[i as int]) == d);
        }
        if acc > (u64::MAX - d) / 10 {
            proof {
                assert(dec_value(v@.take(i as int + 1)) == acc * 10 + d);
                assert(acc * 10 + d > u64::MAX) by {
                    lemma_fundamental_div_mod((u64::MAX - d) as int, 10);
                };
                if is_dec_digits(v@) {
                    lemma_dec_value_lower_bound(v@, i as int + 1);
                }
            }
            return None;
        }
        proof {
            assert(acc * 10 + d <= u64::MAX) by {
                lemma_fundamental_div_mod((u64::MAX - d) as int, 10);
            };
        }
        acc = acc * 10 + d;
        i = i + 1;
    }
    proof {
        assert(v@.take(i as int) =~= v@);
    }
    Some(acc)
}

/// The canonical decimal rendering of `n`, as characters.
pub fn u64_to_dec_chars(n: u64) -> (r: Vec<char>)
    ensures
        r@ == dec_chars_of(n as nat),
{
    let mut rev: Vec<char> = Vec::new();
    let mut m: u64 = n;
    proof {
        assert(dec_chars_of(n as nat) =~= dec_chars_of(n as nat) + rev@.reverse());
    }
    while m >= 10
        invariant
            dec_chars_of(n as nat) == dec_chars_of(m as nat) + rev@.reverse(),
        decreases m,
    {
        let c = dec_digit_exec((m % 10) as usize);
        proof {
            lemma_rev_push(rev@, c);
            assert(dec_chars_of(m as nat) == dec_chars_of((m / 10) as nat).push(c));
            assert(dec_chars_of((m / 10) as nat) + (rev@.push(c)).reverse() =~= dec_chars_of(
                m as nat,
            ) + rev@.reverse());
        }
        rev.push(c);
        m = m / 10;
    }
    let c0 = dec_digit_exec(m as usize);
    proof {
        assert(dec_chars_of(m as nat) =~= seq![c0]);
    }
    let mut r: Vec<char> = Vec::new();
    r.push(c0);
    let mut i: usize = rev.len();
    proof {
        assert(r@ =~= seq![c0] + rev@.reverse().take(0));
    }
    while i > 0
        invariant
            i <= rev@.len(),
            r@ == seq![c0] + rev@.reverse().take(rev@.len() - i),
        decreases i,
    {
        i = i - 1;
        r.push(rev[i]);
        proof {
            assert(rev@.reverse()[rev@.len() - 1 - i as int] == rev@[i as int]);
            assert(r@ =~= seq![c0] + rev@.reverse().take(rev@.len() - i));
        }
    }
    proof {
        assert(rev@.reverse().take(rev@.len() - 0) =~= rev@.reverse());
        assert(r@ =~= seq![c0] + rev@.reverse());
        assert(dec_chars_of(n as nat) =~= seq![c0] + rev@.reverse());
    }
    r
}

/// A digit character is recovered from its value.
proof fn lemma_dec_digit_char_val(c: char)
    requires
        is_dec_digit(c),
    ensures
        dec_digit_char(dec_digit_val(c)) == c,
        0 <= dec_digit_val(c) < 10,
{
}

/// The canonical rendering has at least one digit, two from ten upward.
pub proof fn lemma_dec_chars_len(n: nat)
    ensures
        dec_chars_of(n).len() >= 1,
        n >= 10 ==> dec_chars_of(n).len() >= 2,
    decreases n,
{
    if n >= 10 {
        lemma_dec_chars_len(n / 10);
    }
}

/// The canonical rendering never starts with a superfluous zero.
pub proof fn lemma_dec_chars_no_leading_zero(n: nat)
    ensures
        dec_chars_of(n).len() > 1 ==> dec_chars_of(n)[0] != '0',
    decreases n,
{
    if n >= 10 {
        lemma_dec_chars_no_leading_zero(n / 10);
        lemma_dec_chars_len(n / 10);
        assert(dec_chars_of(n)[0] == dec_chars_of(n / 10)[0]);
        if n / 10 < 10 {
            assert(n / 10 >= 1);
        } else {
            assert(dec_chars_of(n / 10).len() > 1);
        }
    }
}

/// A digit string with a nonzero leading digit has a positive value.
proof fn lemma_dec_value_positive(s: Seq<char>)
    requires
        is_dec_digits(s),
        s[0] != '0',
    ensures
        dec_value(s) >= 1,
    decreases s.len(),
{
    if s.len() == 1 {
        assert(dec_value(s.drop_last()) == 0);
    } else {
        assert(forall|i: int|
            0 <= i < s.drop_last().len() ==> is_dec_digit(#[trigger] s.drop_last()[i]));
        lemma_dec_value_positive(s.drop_last());
        assert(dec_digit_val(s.last()) >= 0);
    }
}

/// The decimal notation without leading zeros is unique: any digit string
/// in canonical form is the canonical rendering of its own value.
pub proof fn lemma_canonical_dec_unique(s: Seq<char>)
    requires
        is_dec_digits(s),
        s.len() > 1 ==> s[0] != '0',
    ensures
        s == dec_chars_of(dec_value(s) as nat),
    decreases s.len(),
{
    lemma_dec_value_nonneg(s);
    if s.len() == 1 {
        lemma_dec_digit_char_val(s[0]);
        assert(dec_value(s.drop_last()) == 0);
        assert(dec_value(s) == dec_digit_val(s[0]));
        assert(s =~= seq![dec_digit_char(dec_value(s))]);
    } else {
        let t = s.drop_last();
        let d = dec_digit_val(s.last());
        assert(is_dec_digits(t));
        assert(t[0] == s[0]);
        lemma_canonical_dec_unique(t);
        lemma_dec_value_positive(t);
        lemma_dec_digit_char_val(s.last());
        let a = dec_value(t);
        assert(dec_value(s) == a * 10 + d);
        assert(a * 10 + d >= 10) by (nonlinear_arith)
            requires
                a >= 1 && d >= 0,
        ;
        assert((a * 10 + d) / 10 == a && (a * 10 + d) % 10 == d) by (nonlinear_arith)
            requires
                0 <= d < 10 && a >= 0,
        ;
        assert(dec_chars_of(dec_value(s) as nat) == dec_chars_of(a as nat).push(
            dec_digit_char(d),
        ));
        assert(s =~= t.push(s.last()));
    }
}

/// Whether two character vectors hold the same characters.
pub fn chars_eq(a: &Vec<char>, b: &Vec<char>) -> (r: bool)
    ensures
        r == (a@ == b@),
{
    if a.len() != b.len() {
        proof {
            assert(a@ != b@);
        }
        return false;
    }
    let mut i: usize = 0;
    while i < a.len()
        invariant
            i <= a@.len(),
            a@.len() == b@.len(),
            forall|j: int| 0 <= j < i ==> a@[j] == b@[j],
        decreases a@.len() - i,
    {
        if a[i] != b[i] {
            proof {
                assert(a@[i as int] != b@[i as int]);
            }
            return false;
        }
        i = i + 1;
    }
    proof {
        assert(a@ =~= b@);
    }
    true
}

/// Appends the characters of `s` to `out`.
pub fn append_str_chars(out: &mut Vec<char>, s: &str)
    ensures
        final(out)@ == old(out)@ + s@,
{
    let chars = str_chars(s);
    let mut i: usize = 0;
    while i < chars.len()
        invariant
            i <= chars@.len(),
            chars@ == s@,
            out@ == old(out)@ + s@.take(i as int),
        decreases chars@.len() - i,
    {
        out.push(chars[i]);
        i = i + 1;
        proof {
            assert(out@ =~= old(out)@ + s@.take(i as int));
        }
    }
    proof {
        assert(out@ =~= old(out)@ + s@);
    }
}

/// Appends the characters of `v` to `out`.
pub fn append_chars(out: &mut Vec<char>, v: &Vec<char>)
    ensures
        final(out)@ == old(out)@ + v@,
{
    let mut i: usize = 0;
    while i < v.len()
        invariant
            i <= v@.len(),
            out@ == old(out)@ + v@.take(i as int),
        decreases v@.len() - i,
    {
        out.push(v[i]);
        i = i + 1;
        proof {
            assert(out@ =~= old(out)@ + v@.take(i as int));
        }
    }
    proof {
        assert(out@ =~= old(out)@ + v@);
    }
}

/// Whether the characters of `lit` occur in `v` starting at `i`.
pub fn match_lit(v: &Vec<char>, i: usize, lit: &str) -> (r: bool)
    ensures
        r == (i + lit@.len() <= v@.len() && v@.skip(i as int).take(lit@.len() as int) == lit@),
{
    let chars = str_chars(lit);
    let n = v.len();
    if n < i || n - i < chars.len() {
        proof {
            assert(i + lit@.len() > v@.len());
        }
        return false;
    }
    let mut j: usize = 0;
    while j < chars.len()
        invariant
            j <= chars@.len(),
            chars@ == lit@,
            n == v@.len(),
            i + chars@.len() <= n,
            forall|k: int| 0 <= k < j ==> v@[i + k] == lit@[k],
        decreases chars@.len() - j,
    {
        if v[i + j] != chars[j] {
            proof {
                assert(v@.skip(i as int).take(lit@.len() as int)[j as int] == v@[i + j]);
                assert(v@.skip(i as int).take(lit@.len() as int) != lit@);
            }
            return false;
        }
        j = j + 1;
    }
    proof {
        assert(v@.skip(i as int).take(lit@.len() as int) =~= lit@);
    }
    true
}

/// Holds when `sep` does not occur in `s`.
pub open spec fn has_no_char(s: Seq<char>, sep: char) -> bool {
    forall|i: int| 0 <= i < s.len() ==> s[i] != sep
}

/// Joins fields with a separator character: the inverse of [`split_on`].
pub open spec fn join_on(parts: Seq<Seq<char>>, sep: char) -> Seq<char>
    decreases parts.len(),
{
    if parts.len() == 0 {
        Seq::<char>::empty()
    } else if parts.len() == 1 {
        parts[0]
    } else {
        join_on(parts.drop_last(), sep) + seq![sep] + parts.last()
    }
}

/// Appending a character to the last field appends it to the joined text.
proof fn lemma_join_push_char(parts: Seq<Seq<char>>, sep: char, c: char)
    requires
        parts.len() >= 1,
    ensures
        join_on(parts.update(parts.len() - 1, parts.last().push(c)), sep) == join_on(
            parts,
            sep,
        ).push(c),
{
    let u = parts.update(parts.len() - 1, parts.last().push(c));
    if parts.len() == 1 {
        assert(u[0] == parts[0].push(c));
    } else {
        assert(u.drop_last() =~= parts.drop_last());
        assert(u.last() == parts.last().push(c));
        assert(join_on(parts.drop_last(), sep) + seq![sep] + parts.last().push(c) =~= (join_on(
            parts.drop_last(),
            sep,
        ) + seq![sep] + parts.last()).push(c));
    }
}

/// Joining the fields of a split gives the original text back, and no
/// field contains the separator.
pub proof fn lemma_split_on_parts(s: Seq<char>, sep: char)
    ensures
        join_on(split_on(s, sep), sep) == s,
        forall|i: int|
            0 <= i < split_on(s, sep).len() ==> has_no_char(#[trigger] split_on(s, sep)[i], sep),
    decreases s.len(),
{
    lemma_split_on_len(s, sep);
    if s.len() == 0 {
        assert(join_on(split_on(s, sep), sep) =~= s);
        assert(has_no_char(split_on(s, sep)[0], sep));
    } else if s.last() == sep {
        lemma_split_on_parts(s.drop_last(), sep);
        let parts = split_on(s.drop_last(), sep);
        assert(split_on(s, sep) == parts.push(Seq::<char>::empty()));
        assert(parts.push(Seq::<char>::empty()).drop_last() =~= parts);
        assert(join_on(parts.push(Seq::<char>::empty()), sep) =~= join_on(parts, sep) + seq![sep]
            + Seq::<char>::empty());
        assert(join_on(parts, sep) + seq![sep] + Seq::<char>::empty() =~= s);
        assert forall|i: int| 0 <= i < split_on(s, sep).len() implies has_no_char(
            #[trigger] split_on(s, sep)[i],
            sep,
        ) by {
            if i < parts.len() {
                assert(split_on(s, sep)[i] == parts[i]);
            }
        }
    } else {
        lemma_split_on_parts(s.drop_last(), sep);
        let parts = split_on(s.drop_last(), sep);
        let c = s.last();
        lemma_join_push_char(parts, sep, c);
        assert(split_on(s, sep) == parts.update(parts.len() - 1, parts.last().push(c)));
        assert(join_on(split_on(s, sep), sep) == join_on(parts, sep).push(c));
        assert(join_on(parts, sep).push(c) =~= s);
        assert forall|i: int| 0 <= i < split_on(s, sep).len() implies has_no_char(
            #[trigger] split_on(s, sep)[i],
            sep,
        ) by {
            if i < parts.len() - 1 {
                assert(split_on(s, sep)[i] == parts[i]);
            } else {
                assert(split_on(s, sep)[i] == parts.last().push(c));
                assert(has_no_char(parts.last(), sep));
                assert forall|j: int|
                    0 <= j < parts.last().push(c).len() implies parts.last().push(c)[j] != sep by {
                    if j < parts.last().len() {
                        assert(parts.last().push(c)[j] == parts.last()[j]);
                    }
                }
            }
        }
    }
}

/// Splitting a joined text recovers the fields, provided none of them
/// contains the separator.
pub proof fn lemma_join_split(parts: Seq<Seq<char>>, sep: char)
    requires
        parts.len() >= 1,
        forall|i: int| 0 <= i < parts.len() ==> has_no_char(#[trigger] parts[i], sep),
    ensures
        split_on(join_on(parts, sep), sep) == parts,
    decreases parts.len(), parts.last().len(),
{
    if parts.last().len() > 0 {
        let c = parts.last().last();
        assert(c != sep);
        let shorter = parts.update(parts.len() - 1, parts.last().drop_last());
        assert(forall|i: int|
            0 <= i < shorter.len() - 1 ==> #[trigger] shorter[i] == parts[i]);
        assert forall|i: int| 0 <= i < shorter.len() implies has_no_char(
            #[trigger] shorter[i],
            sep,
        ) by {
            if i == shorter.len() - 1 {
                assert(forall|j: int|
                    0 <= j < parts.last().drop_last().len() ==> parts.last().drop_last()[j]
                        == parts.last()[j]);
            }
        }
        lemma_join_split(shorter, sep);
        lemma_join_push_char(shorter, sep, c);
        assert(shorter.last().push(c) =~= parts.last());
        assert(shorter.update(shorter.len() - 1, shorter.last().push(c)) =~= parts);
        assert(join_on(parts, sep) == join_on(shorter, sep).push(c));
        let s = join_on(parts, sep);
        assert(s.len() > 0 && s.last() == c);
        assert(s.drop_last() =~= join_on(shorter, sep));
        lemma_split_on_len(s.drop_last(), sep);
        assert(split_on(s, sep) == split_on(s.drop_last(), sep).update(
            split_on(s.drop_last(), sep).len() - 1,
            split_on(s.drop_last(), sep).last().push(c),
        ));
        assert(split_on(s, sep) =~= parts);
    } else {
        if parts.len() == 1 {
            assert(parts[0].len() == 0);
            assert(parts[0] =~= Seq::<char>::empty());
            assert(split_on(join_on(parts, sep), sep) =~= parts);
        } else {
            let front = parts.drop_last();
            assert(forall|i: int|
                0 <= i < front.len() ==> #[trigger] front[i] == parts[i]);
            lemma_join_split(front, sep);
            let s = join_on(parts, sep);
            assert(s =~= join_on(front, sep) + seq![sep]);
            assert(s.len() > 0 && s.last() == sep);
            assert(s.drop_last() =~= join_on(front, sep));
            assert(split_on(s, sep) == split_on(s.drop_last(), sep).push(Seq::<char>::empty()));
            assert(parts.last() =~= Seq::<char>::empty());
            assert(split_on(s, sep) =~= parts);
        }
    }
}

/// Splits `s` on every occurrence of `sep`. The result always has one more
/// element than there are separators; in particular it is never empty, and
/// splitting the empty sequence yields one empty field.
pub open spec fn split_on(s: Seq<char>, sep: char) -> Seq<Seq<char>>
    decreases s.len(),
{
    if s.len() == 0 {
        seq![Seq::<char>::empty()]
    } else if s.last() == sep {
        split_on(s.drop_last(), sep).push(Seq::<char>::empty())
    } else {
        let rest = split_on(s.drop_last(), sep);
        rest.update(rest.len() - 1, rest.last().push(s.last()))
    }
}

/// Splitting never produces an empty field list.
pub proof fn lemma_split_on_len(s: Seq<char>, sep: char)
    ensures
        split_on(s, sep).len() >= 1,
    decreases s.len(),
{
    if s.len() == 0 {
    } else {
        lemma_split_on_len(s.drop_last(), sep);
    }
}

/// Splits `v` on every occurrence of `sep`, executable form.
pub fn split_chars(v: &Vec<char>, sep: char) -> (r: Vec<Vec<char>>)
    ensures
        r@.len() == split_on(v@, sep).len(),
        forall|i: int| 0 <= i < r@.len() ==> #[trigger] r@[i]@ == split_on(v@, sep)[i],
{
    let mut out: Vec<Vec<char>> = Vec::new();
    let mut cur: Vec<char> = Vec::new();
    let mut i: usize = 0;
    proof {
        assert(v@.take(0) =~= Seq::<char>::empty());
    }
    while i < v.len()
        invariant
            i <= v@.len(),
            out@.len() + 1 == split_on(v@.take(i as int), sep).len(),
            forall|j: int|
                0 <= j < out@.len() ==> #[trigger] out@[j]@ == split_on(v@.take(i as int), sep)[j],
            cur@ == split_on(v@.take(i as int), sep).last(),
        decreases v@.len() - i,
    {
        let c = v[i];
        proof {
            assert(v@.take(i as int + 1).drop_last() =~= v@.take(i as int));
            assert(v@.take(i as int + 1).last() == c);
            lemma_split_on_len(v@.take(i as int), sep);
        }
        if c == sep {
            out.push(cur);
            cur = Vec::new();
        } else {
            cur.push(c);
        }
        i = i + 1;
    }
    proof {
        assert(v@.take(i as int) =~= v@);
    }
    out.push(cur);
    out
}

} // verus!
