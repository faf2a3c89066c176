//! Text helpers: decimal and hexadecimal numbers, ASCII case, and the decoders and encoders
//! that DNS data goes through on its way to text.
use vstd::prelude::*;
use vstd::utf8::{decode_utf8, valid_utf8};
use base64::Engine;

verus! {

/// The character of the decimal digit `d`.
pub open spec fn digit_char(d: int) -> char {
    (d + 48) as char
}

/// The decimal representation of `n`, without leading zeros.
pub open spec fn decimal(n: nat) -> Seq<char>
    decreases n,
{
    if n < 10 {
        seq![digit_char(n as int)]
    } else {
        decimal(n / 10).push(digit_char((n % 10) as int))
    }
}

/// Whether `c` is an ASCII decimal digit.
pub open spec fn is_digit(c: char) -> bool {
    '0' <= c <= '9'
}

/// Whether every character of `s` is an ASCII decimal digit.
pub open spec fn all_digits(s: Seq<char>) -> bool {
    forall|i: int| 0 <= i < s.len() ==> is_digit(#[trigger] s[i])
}

/// The value of the decimal digits `s`.
pub open spec fn digits_value(s: Seq<char>) -> nat
    decreases s.len(),
{
    if s.len() == 0 {
        0
    } else {
        digits_value(s.drop_last()) * 10 + (s.last() as nat - 48) as nat
    }
}

/// ASCII upper case of one character: 'a'..='z' become 'A'..='Z', all else stays.
pub open spec fn upper_char(c: char) -> char {
    if 'a' <= c <= 'z' {
        ((c as int) - 32) as char
    } else {
        c
    }
}

/// ASCII upper case of a string.
pub open spec fn to_upper(s: Seq<char>) -> Seq<char> {
    s.map_values(|c: char| upper_char(c))
}

/// ASCII lower case of one character: 'A'..='Z' become 'a'..='z', all else stays.
pub open spec fn lower_char(c: char) -> char {
    if 'A' <= c <= 'Z' {
        ((c as int) + 32) as char
    } else {
        c
    }
}

/// ASCII lower case of a string.
pub open spec fn to_lower(s: Seq<char>) -> Seq<char> {
    s.map_values(|c: char| lower_char(c))
}

/// The text that `String::from_utf8_lossy` makes of bytes that are not valid
/// UTF-8: their decoding, each invalid sequence replaced by U+FFFD.
pub uninterp spec fn utf8_lossy_invalid_text(bytes: Seq<u8>) -> Seq<char>;

/// The text that `String::from_utf8_lossy` makes of `bytes`: valid UTF-8
/// decodes to the characters it encodes; other bytes give
/// `utf8_lossy_invalid_text`.
pub open spec fn utf8_lossy_text(bytes: Seq<u8>) -> Seq<char> {
    if valid_utf8(bytes) {
        decode_utf8(bytes)
    } else {
        utf8_lossy_invalid_text(bytes)
    }
}

/// The standard base64 encoding (with padding) of `bytes`, as
/// `base64::engine::general_purpose::STANDARD` writes it.
pub uninterp spec fn base64_standard(bytes: Seq<u8>) -> Seq<char>;

/// `String::push`: appends the character `c`.
#[verifier::external_body]
pub(crate) fn push_char(s: &mut String, c: char)
    ensures
        final(s)@ == old(s)@.push(c),
{
    s.push(c)
}

/// `String::from_utf8_lossy`, made an owned `String`: as std documents, valid
/// UTF-8 comes out as the characters it encodes; the text of other bytes is
/// named by `utf8_lossy_invalid_text`, and how invalid sequences are replaced
/// is left unsaid.
#[verifier::external_body]
pub(crate) fn utf8_lossy(bytes: &[u8]) -> (s: String)
    ensures
        s@ == utf8_lossy_text(bytes@),
        valid_utf8(bytes@) ==> s@ == decode_utf8(bytes@),
        !valid_utf8(bytes@) ==> s@ == utf8_lossy_invalid_text(bytes@),
{
    String::from_utf8_lossy(bytes).into_owned()
}

/// `STANDARD.encode` of `base64`: the text is named by `base64_standard`. The
/// crate computes the output length first and panics when it overflows, so the
/// input is bounded to keep that length within `usize`.
#[verifier::external_body]
pub(crate) fn base64_encode(bytes: &[u8]) -> (s: String)
    requires
        bytes@.len() <= 0xffff,
    ensures
        s@ == base64_standard(bytes@),
{
    base64::engine::general_purpose::STANDARD.encode(bytes)
}

/// Appends the decimal representation of `n`.
pub fn push_decimal(s: &mut String, n: u32)
    ensures
        final(s)@ == old(s)@ + decimal(n as nat),
    decreases n,
{
    if n >= 10 {
        push_decimal(s, n / 10);
    }
    let d = n % 10;
    let c = char_of_digit(d);
    push_char(s, c);
    proof {
        assert(old(s)@ + decimal(n as nat) =~= final(s)@);
    }
}

/// The character of a decimal digit.
pub fn char_of_digit(d: u32) -> (c: char)
    requires
        d < 10,
    ensures
        c == digit_char(d as int),
{
    if d == 0 {
        '0'
    } else if d == 1 {
        '1'
    } else if d == 2 {
        '2'
    } else if d == 3 {
        '3'
    } else if d == 4 {
        '4'
    } else if d == 5 {
        '5'
    } else if d == 6 {
        '6'
    } else if d == 7 {
        '7'
    } else if d == 8 {
        '8'
    } else {
        '9'
    }
}

/// The character of the hexadecimal digit `d`, in lower case.
pub open spec fn hex_digit_char(d: int) -> char {
    if d < 10 {
        (d + 48) as char
    } else {
        (d + 87) as char
    }
}

/// The lower-case hexadecimal representation of `n`, without leading zeros.
pub open spec fn hex(n: nat) -> Seq<char>
    decreases n,
{
    if n < 16 {
        seq![hex_digit_char(n as int)]
    } else {
        hex(n / 16).push(hex_digit_char((n % 16) as int))
    }
}

/// Appends the lower-case hexadecimal representation of `n`.
pub fn push_hex(s: &mut String, n: u32)
    ensures
        final(s)@ == old(s)@ + hex(n as nat),
    decreases n,
{
    if n >= 16 {
        push_hex(s, n / 16);
    }
    let c = char_of_hex_digit(n % 16);
    push_char(s, c);
    proof {
        assert(old(s)@ + hex(n as nat) =~= final(s)@);
    }
}

/// The character of a hexadecimal digit, in lower case.
pub fn char_of_hex_digit(d: u32) -> (c: char)
    requires
        d < 16,
    ensures
        c == hex_digit_char(d as int),
{
    if d < 10 {
        char_of_digit(d)
    } else if d == 10 {
        'a'
    } else if d == 11 {
        'b'
    } else if d == 12 {
        'c'
    } else if d == 13 {
        'd'
    } else if d == 14 {
        'e'
    } else {
        'f'
    }
}

/// The characters of `s`, in order.
pub fn chars_of(s: &str) -> (v: Vec<char>)
    ensures
        v@ == s@,
{
    let n = s.unicode_len();
    let mut v: Vec<char> = Vec::new();
    let mut i: usize = 0;
    while i < n
        invariant
            i <= n,
            n == s@.len(),
            v@ == s@.subrange(0, i as int),
        decreases n - i,
    {
        v.push(s.get_char(i));
        i = i + 1;
    }
    v
}

/// Whether the characters `a` are those of `lit`.
pub fn chars_equal(a: &Vec<char>, lit: &str) -> (r: bool)
    ensures
        r == (a@ == lit@),
{
    let n = lit.unicode_len();
    if a.len() != n {
        return false;
    }
    let mut i: usize = 0;
    while i < n
        invariant
            i <= n,
            n == lit@.len(),
            a@.len() == n,
            a@.subrange(0, i as int) == lit@.subrange(0, i as int),
        decreases n - i,
    {
        if a[i] != lit.get_char(i) {
            assert(a@[i as int] != lit@[i as int]);
            return false;
        }
        proof {
            assert(a@.subrange(0, i + 1) =~= a@.subrange(0, i as int).push(a@[i as int]));
            assert(lit@.subrange(0, i + 1) =~= lit@.subrange(0, i as int).push(lit@[i as int]));
        }
        i = i + 1;
    }
    assert(a@ =~= a@.subrange(0, n as int));
    assert(lit@ =~= lit@.subrange(0, n as int));
    true
}

/// ASCII upper case of the characters `s`.
pub fn upper_chars(s: &Vec<char>) -> (u: Vec<char>)
    ensures
        u@ == to_upper(s@),
{
    let mut u: Vec<char> = Vec::new();
    let mut i: usize = 0;
    while i < s.len()
        invariant
            i <= s@.len(),
            u@ == to_upper(s@.subrange(0, i as int)),
        decreases s@.len() - i,
    {
        let c = s[i];
        let up = if 'a' <= c && c <= 'z' {
            char_upper(c)
        } else {
            c
        };
        u.push(up);
        proof {
            assert(s@.subrange(0, i + 1) =~= s@.subrange(0, i as int).push(c));
            assert(to_upper(s@.subrange(0, i + 1)) =~= to_upper(s@.subrange(0, i as int)).push(upper_char(c)));
        }
        i = i + 1;
    }
    assert(s@ =~= s@.subrange(0, s@.len() as int));
    u
}

fn char_upper(c: char) -> (u: char)
    requires
        'a' <= c <= 'z',
    ensures
        u == upper_char(c),
{
    let code = c as u32 - 32;
    assert(0x41 <= code <= 0x5a);
    let u = char_from_ascii(code as u8);
    u
}

/// The character of an ASCII code.
pub fn char_from_ascii(b: u8) -> (c: char)
    requires
        b < 128,
    ensures
        c as int == b as int,
{
    b as char
}

/// The digits of an unsigned number as `from_str` reads them: after one
/// leading '+', if there is one.
pub open spec fn unsigned_digits(s: Seq<char>) -> Seq<char> {
    if s.len() > 0 && s[0] == '+' {
        s.drop_first()
    } else {
        s
    }
}

/// `from_str` of an unsigned integer type whose largest value is `max`: an
/// optional '+' followed by one or more decimal digits of value at most `max`.
pub open spec fn parse_unsigned_spec(s: Seq<char>, max: nat) -> Option<nat> {
    let digits = unsigned_digits(s);
    if digits.len() > 0 && all_digits(digits) && digits_value(digits) <= max {
        Some(digits_value(digits))
    } else {
        None
    }
}

/// `u64::from_str`.
pub open spec fn parse_u64_spec(s: Seq<char>) -> Option<u64> {
    match parse_unsigned_spec(s, u64::MAX as nat) {
        Some(n) => Some(n as u64),
        None => None,
    }
}

/// The number that `from_str` of an unsigned type whose largest value is `max`
/// reads from the characters `v`.
#[verifier::loop_isolation(false)]
pub fn parse_unsigned(v: &Vec<char>, max: u64) -> (r: Option<u64>)
    ensures
        match parse_unsigned_spec(v@, max as nat) {
            Some(n) => r == Some(n as u64),
            None => r is None,
        },
{
    let n = v.len();
    if n == 0 {
        return None;
    }
    let mut i: usize = 0;
    if v[0] == '+' {
        i = 1;
    }
    let start = i;
    let ghost digits = unsigned_digits(v@);
    assert(digits =~= v@.subrange(start as int, n as int));
    if start == n {
        return None;
    }
    let cap: u128 = max as u128 + 1;
    let mut value: u128 = 0;
    while i < n
        invariant
            start <= i <= n,
            n == v@.len(),
            cap == max + 1,
            all_digits(v@.subrange(start as int, i as int)),
            value == (if digits_value(v@.subrange(start as int, i as int)) < cap {
                digits_value(v@.subrange(start as int, i as int))
            } else {
                cap as nat
            }),
        decreases n - i,
    {
        let c = v[i];
        if !('0' <= c && c <= '9') {
            assert(!is_digit(v@.subrange(start as int, n as int)[i - start]));
            assert(!all_digits(digits));
            return None;
        }
        let d = (c as u32 - 48) as u128;
        let next = value * 10 + d;
        value = if next < cap {
            next
        } else {
            cap
        };
        proof {
            let pre = v@.subrange(start as int, i as int);
            let post = v@.subrange(start as int, i + 1);
            assert(post.drop_last() =~= pre);
            assert(post.last() == c);
            assert forall|j: int| 0 <= j < post.len() implies is_digit(#[trigger] post[j]) by {
                if j < pre.len() {
                    assert(post[j] == pre[j]);
                }
            }
        }
        i = i + 1;
    }
    if value > max as u128 {
        return None;
    }
    Some(value as u64)
}

} // verus!
