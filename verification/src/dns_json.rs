//! The JSON view of DNS messages (the Google DNS-over-HTTPS JSON format):
//! parsing wire-format responses into it and building queries from its
//! parameters.
use vstd::prelude::*;
use vstd::slice::slice_subrange;
use crate::error::DnsError;
use crate::dns::{rcode, qdcount, ancount, arcount, spec_rcode, spec_truncated, name_end_from, skip_name_spec};
use crate::wire::{be16, be32, be16_bytes, read_u16_at, read_u32_at, write_u16_at};
use vstd::utf8::{encode_utf8, encode_scalar, decode_utf8, valid_utf8, encode_utf8_valid_utf8, encode_utf8_decode_utf8};
use crate::text::{
    all_digits, digits_value, is_digit, to_upper, upper_char, to_lower, lower_char, chars_of, chars_equal, upper_chars,
    decimal, utf8_lossy_text, parse_unsigned_spec, unsigned_digits, parse_unsigned, base64_standard, push_char, push_decimal, utf8_lossy, base64_encode, hex, push_hex,
};

verus! {

// ---------------------------------------------------------------------------
// Record types by name

/// `u16::from_str`: an optional '+' followed by one or more decimal digits
/// whose value is at most 65535.
pub open spec fn parse_u16_spec(s: Seq<char>) -> Option<u16> {
    match parse_unsigned_spec(s, 65535) {
        Some(n) => Some(n as u16),
        None => None,
    }
}

/// The record type named by the upper-case mnemonic `u`.
pub open spec fn type_code(u: Seq<char>) -> Option<u16> {
    if u == "A"@ {
        Some(1u16)
    } else if u == "NS"@ {
        Some(2u16)
    } else if u == "CNAME"@ {
        Some(5u16)
    } else if u == "SOA"@ {
        Some(6u16)
    } else if u == "PTR"@ {
        Some(12u16)
    } else if u == "MX"@ {
        Some(15u16)
    } else if u == "TXT"@ {
        Some(16u16)
    } else if u == "AAAA"@ {
        Some(28u16)
    } else if u == "SRV"@ {
        Some(33u16)
    } else if u == "DS"@ {
        Some(43u16)
    } else if u == "SSHFP"@ {
        Some(44u16)
    } else if u == "RRSIG"@ {
        Some(46u16)
    } else if u == "NSEC"@ {
        Some(47u16)
    } else if u == "DNSKEY"@ {
        Some(48u16)
    } else if u == "NSEC3"@ {
        Some(50u16)
    } else if u == "TLSA"@ {
        Some(52u16)
    } else if u == "HTTPS"@ {
        Some(65u16)
    } else if u == "SVCB"@ {
        Some(64u16)
    } else if u == "CAA"@ {
        Some(257u16)
    } else if u == "ANY"@ {
        Some(255u16)
    } else {
        None
    }
}

/// A record type given as a number, or else as a mnemonic in any case.
pub open spec fn parse_dns_type_spec(s: Seq<char>) -> Option<u16> {
    match parse_u16_spec(s) {
        Some(n) => Some(n),
        None => type_code(to_upper(s)),
    }
}

/// The number `u16::from_str` reads from the characters `v`.
pub fn parse_u16_chars(v: &Vec<char>) -> (r: Option<u16>)
    ensures
        r == parse_u16_spec(v@),
{
    match parse_unsigned(v, 65535) {
        Some(n) => Some(n as u16),
        None => None,
    }
}

/// The record type named by the upper-case characters `u`.
pub fn type_code_of(u: &Vec<char>) -> (r: Option<u16>)
    ensures
        r == type_code(u@),
{
    if chars_equal(u, "A") {
        Some(1)
    } else if chars_equal(u, "NS") {
        Some(2)
    } else if chars_equal(u, "CNAME") {
        Some(5)
    } else if chars_equal(u, "SOA") {
        Some(6)
    } else if chars_equal(u, "PTR") {
        Some(12)
    } else if chars_equal(u, "MX") {
        Some(15)
    } else if chars_equal(u, "TXT") {
        Some(16)
    } else if chars_equal(u, "AAAA") {
        Some(28)
    } else if chars_equal(u, "SRV") {
        Some(33)
    } else if chars_equal(u, "DS") {
        Some(43)
    } else if chars_equal(u, "SSHFP") {
        Some(44)
    } else if chars_equal(u, "RRSIG") {
        Some(46)
    } else if chars_equal(u, "NSEC") {
        Some(47)
    } else if chars_equal(u, "DNSKEY") {
        Some(48)
    } else if chars_equal(u, "NSEC3") {
        Some(50)
    } else if chars_equal(u, "TLSA") {
        Some(52)
    } else if chars_equal(u, "HTTPS") {
        Some(65)
    } else if chars_equal(u, "SVCB") {
        Some(64)
    } else if chars_equal(u, "CAA") {
        Some(257)
    } else if chars_equal(u, "ANY") {
        Some(255)
    } else {
        None
    }
}

/// Parses a DNS record type from either a number ("1", "28") or a mnemonic in
/// any case ("A", "AAAA", "any").
pub fn parse_dns_type(s: &str) -> (r: Option<u16>)
    ensures
        r == parse_dns_type_spec(s@),
{
    let chars = chars_of(s);
    if let Some(n) = parse_u16_chars(&chars) {
        return Some(n);
    }
    let upper = upper_chars(&chars);
    type_code_of(&upper)
}

/// Upper-casing twice is upper-casing once.
pub proof fn lemma_upper_idempotent(s: Seq<char>)
    ensures
        to_upper(to_upper(s)) == to_upper(s),
{
    assert(to_upper(to_upper(s)) =~= to_upper(s));
}

/// Record types are read regardless of case: a string and its upper case
/// name the same type, or none.
pub proof fn law_parse_dns_type_case_insensitive(s: Seq<char>)
    ensures
        parse_dns_type_spec(s) == parse_dns_type_spec(to_upper(s)),
{
    lemma_upper_idempotent(s);
    let u = to_upper(s);
    if parse_u16_spec(s) is Some || parse_u16_spec(u) is Some {
        // A number holds only digits and maybe a leading '+', which upper case keeps.
        let sd = if s.len() > 0 && s[0] == '+' { s.drop_first() } else { s };
        let ud = if u.len() > 0 && u[0] == '+' { u.drop_first() } else { u };
        if parse_u16_spec(s) is Some {
            assert forall|i: int| 0 <= i < s.len() implies u[i] == s[i] by {
                if s.len() > 0 && s[0] == '+' && i > 0 {
                    assert(is_digit(sd[i - 1]));
                } else if !(s.len() > 0 && s[0] == '+') {
                    assert(is_digit(sd[i]));
                }
            }
        } else {
            assert forall|i: int| 0 <= i < s.len() implies u[i] == s[i] by {
                assert(u[i] == upper_char(s[i]));
                if u.len() > 0 && u[0] == '+' && i > 0 {
                    assert(is_digit(ud[i - 1]));
                } else if !(u.len() > 0 && u[0] == '+') {
                    assert(is_digit(ud[i]));
                }
            }
        }
        assert(u =~= s);
    }
}

/// Record types are read regardless of case, lower case too: a string and its
/// lower case name the same type, or none.
pub proof fn law_parse_dns_type_lower_case(s: Seq<char>)
    ensures
        parse_dns_type_spec(s) == parse_dns_type_spec(to_lower(s)),
{
    let l = to_lower(s);
    law_parse_dns_type_case_insensitive(s);
    law_parse_dns_type_case_insensitive(l);
    assert forall|i: int| 0 <= i < s.len() implies to_upper(l)[i] == to_upper(s)[i] by {
        assert(l[i] == lower_char(s[i]));
    }
    assert(to_upper(l) =~= to_upper(s));
}

/// A string that begins with a letter, in either case, is no number.
proof fn lemma_letter_is_no_number(s: Seq<char>)
    requires
        s.len() > 0,
        'A' <= to_upper(s)[0] <= 'Z',
    ensures
        parse_u16_spec(s) is None,
{
    assert(to_upper(s)[0] == upper_char(s[0]));
    assert(unsigned_digits(s) == s);
    assert(!is_digit(s[0]));
}

/// The record type mnemonics, in any case, name their IANA codes: A 1, NS 2,
/// CNAME 5, SOA 6, PTR 12, MX 15, TXT 16, AAAA 28, SRV 33, DS 43, SSHFP 44,
/// RRSIG 46, NSEC 47, DNSKEY 48, NSEC3 50, TLSA 52, SVCB 64, HTTPS 65,
/// ANY 255 and CAA 257.
pub proof fn law_parse_dns_type_mnemonics(s: Seq<char>)
    ensures
        to_upper(s) == "A"@ ==> parse_dns_type_spec(s) == Some(1u16),
        to_upper(s) == "NS"@ ==> parse_dns_type_spec(s) == Some(2u16),
        to_upper(s) == "CNAME"@ ==> parse_dns_type_spec(s) == Some(5u16),
        to_upper(s) == "SOA"@ ==> parse_dns_type_spec(s) == Some(6u16),
        to_upper(s) == "PTR"@ ==> parse_dns_type_spec(s) == Some(12u16),
        to_upper(s) == "MX"@ ==> parse_dns_type_spec(s) == Some(15u16),
        to_upper(s) == "TXT"@ ==> parse_dns_type_spec(s) == Some(16u16),
        to_upper(s) == "AAAA"@ ==> parse_dns_type_spec(s) == Some(28u16),
        to_upper(s) == "SRV"@ ==> parse_dns_type_spec(s) == Some(33u16),
        to_upper(s) == "DS"@ ==> parse_dns_type_spec(s) == Some(43u16),
        to_upper(s) == "SSHFP"@ ==> parse_dns_type_spec(s) == Some(44u16),
        to_upper(s) == "RRSIG"@ ==> parse_dns_type_spec(s) == Some(46u16),
        to_upper(s) == "NSEC"@ ==> parse_dns_type_spec(s) == Some(47u16),
        to_upper(s) == "DNSKEY"@ ==> parse_dns_type_spec(s) == Some(48u16),
        to_upper(s) == "NSEC3"@ ==> parse_dns_type_spec(s) == Some(50u16),
        to_upper(s) == "TLSA"@ ==> parse_dns_type_spec(s) == Some(52u16),
        to_upper(s) == "SVCB"@ ==> parse_dns_type_spec(s) == Some(64u16),
        to_upper(s) == "HTTPS"@ ==> parse_dns_type_spec(s) == Some(65u16),
        to_upper(s) == "ANY"@ ==> parse_dns_type_spec(s) == Some(255u16),
        to_upper(s) == "CAA"@ ==> parse_dns_type_spec(s) == Some(257u16),
{
    reveal_strlit("A");
    reveal_strlit("NS");
    reveal_strlit("CNAME");
    reveal_strlit("SOA");
    reveal_strlit("PTR");
    reveal_strlit("MX");
    reveal_strlit("TXT");
    reveal_strlit("AAAA");
    reveal_strlit("SRV");
    reveal_strlit("DS");
    reveal_strlit("SSHFP");
    reveal_strlit("RRSIG");
    reveal_strlit("NSEC");
    reveal_strlit("DNSKEY");
    reveal_strlit("NSEC3");
    reveal_strlit("TLSA");
    reveal_strlit("SVCB");
    reveal_strlit("HTTPS");
    reveal_strlit("ANY");
    reveal_strlit("CAA");
    // Each mnemonic differs from those tested before it, by length or by a character.
    let u = to_upper(s);
    if u == "NS"@ {
        assert("NS"@.len() != "A"@.len());
    }
    if u == "CNAME"@ {
        assert("CNAME"@.len() != "A"@.len());
        assert("CNAME"@.len() != "NS"@.len());
    }
    if u == "SOA"@ {
        assert("SOA"@.len() != "A"@.len());
        assert("SOA"@.len() != "NS"@.len());
        assert("SOA"@.len() != "CNAME"@.len());
    }
    if u == "PTR"@ {
        assert("PTR"@.len() != "A"@.len());
        assert("PTR"@.len() != "NS"@.len());
        assert("PTR"@.len() != "CNAME"@.len());
        assert("PTR"@[0] != "SOA"@[0]);
    }
    if u == "MX"@ {
        assert("MX"@.len() != "A"@.len());
        assert("MX"@[0] != "NS"@[0]);
        assert("MX"@.len() != "CNAME"@.len());
        assert("MX"@.len() != "SOA"@.len());
        assert("MX"@.len() != "PTR"@.len());
    }
    if u == "TXT"@ {
        assert("TXT"@.len() != "A"@.len());
        assert("TXT"@.len() != "NS"@.len());
        assert("TXT"@.len() != "CNAME"@.len());
        assert("TXT"@[0] != "SOA"@[0]);
        assert("TXT"@[0] != "PTR"@[0]);
        assert("TXT"@.len() != "MX"@.len());
    }
    if u == "AAAA"@ {
        assert("AAAA"@.len() != "A"@.len());
        assert("AAAA"@.len() != "NS"@.len());
        assert("AAAA"@.len() != "CNAME"@.len());
        assert("AAAA"@.len() != "SOA"@.len());
        assert("AAAA"@.len() != "PTR"@.len());
        assert("AAAA"@.len() != "MX"@.len());
        assert("AAAA"@.len() != "TXT"@.len());
    }
    if u == "SRV"@ {
        assert("SRV"@.len() != "A"@.len());
        assert("SRV"@.len() != "NS"@.len());
        assert("SRV"@.len() != "CNAME"@.len());
        assert("SRV"@[1] != "SOA"@[1]);
        assert("SRV"@[0] != "PTR"@[0]);
        assert("SRV"@.len() != "MX"@.len());
        assert("SRV"@[0] != "TXT"@[0]);
        assert("SRV"@.len() != "AAAA"@.len());
    }
    if u == "DS"@ {
        assert("DS"@.len() != "A"@.len());
        assert("DS"@[0] != "NS"@[0]);
        assert("DS"@.len() != "CNAME"@.len());
        assert("DS"@.len() != "SOA"@.len());
        assert("DS"@.len() != "PTR"@.len());
        assert("DS"@[0] != "MX"@[0]);
        assert("DS"@.len() != "TXT"@.len());
        assert("DS"@.len() != "AAAA"@.len());
        assert("DS"@.len() != "SRV"@.len());
    }
    if u == "SSHFP"@ {
        assert("SSHFP"@.len() != "A"@.len());
        assert("SSHFP"@.len() != "NS"@.len());
        assert("SSHFP"@[0] != "CNAME"@[0]);
        assert("SSHFP"@.len() != "SOA"@.len());
        assert("SSHFP"@.len() != "PTR"@.len());
        assert("SSHFP"@.len() != "MX"@.len());
        assert("SSHFP"@.len() != "TXT"@.len());
        assert("SSHFP"@.len() != "AAAA"@.len());
        assert("SSHFP"@.len() != "SRV"@.len());
        assert("SSHFP"@.len() != "DS"@.len());
    }
    if u == "RRSIG"@ {
        assert("RRSIG"@.len() != "A"@.len());
        assert("RRSIG"@.len() != "NS"@.len());
        assert("RRSIG"@[0] != "CNAME"@[0]);
        assert("RRSIG"@.len() != "SOA"@.len());
        assert("RRSIG"@.len() != "PTR"@.len());
        assert("RRSIG"@.len() != "MX"@.len());
        assert("RRSIG"@.len() != "TXT"@.len());
        assert("RRSIG"@.len() != "AAAA"@.len());
        assert("RRSIG"@.len() != "SRV"@.len());
        assert("RRSIG"@.len() != "DS"@.len());
        assert("RRSIG"@[0] != "SSHFP"@[0]);
    }
    if u == "NSEC"@ {
        assert("NSEC"@.len() != "A"@.len());
        assert("NSEC"@.len() != "NS"@.len());
        assert("NSEC"@.len() != "CNAME"@.len());
        assert("NSEC"@.len() != "SOA"@.len());
        assert("NSEC"@.len() != "PTR"@.len());
        assert("NSEC"@.len() != "MX"@.len());
        assert("NSEC"@.len() != "TXT"@.len());
        assert("NSEC"@[0] != "AAAA"@[0]);
        assert("NSEC"@.len() != "SRV"@.len());
        assert("NSEC"@.len() != "DS"@.len());
        assert("NSEC"@.len() != "SSHFP"@.len());
        assert("NSEC"@.len() != "RRSIG"@.len());
    }
    if u == "DNSKEY"@ {
        assert("DNSKEY"@.len() != "A"@.len());
        assert("DNSKEY"@.len() != "NS"@.len());
        assert("DNSKEY"@.len() != "CNAME"@.len());
        assert("DNSKEY"@.len() != "SOA"@.len());
        assert("DNSKEY"@.len() != "PTR"@.len());
        assert("DNSKEY"@.len() != "MX"@.len());
        assert("DNSKEY"@.len() != "TXT"@.len());
        assert("DNSKEY"@.len() != "AAAA"@.len());
        assert("DNSKEY"@.len() != "SRV"@.len());
        assert("DNSKEY"@.len() != "DS"@.len());
        assert("DNSKEY"@.len() != "SSHFP"@.len());
        assert("DNSKEY"@.len() != "RRSIG"@.len());
        assert("DNSKEY"@.len() != "NSEC"@.len());
    }
    if u == "NSEC3"@ {
        assert("NSEC3"@.len() != "A"@.len());
        assert("NSEC3"@.len() != "NS"@.len());
        assert("NSEC3"@[0] != "CNAME"@[0]);
        assert("NSEC3"@.len() != "SOA"@.len());
        assert("NSEC3"@.len() != "PTR"@.len());
        assert("NSEC3"@.len() != "MX"@.len());
        assert("NSEC3"@.len() != "TXT"@.len());
        assert("NSEC3"@.len() != "AAAA"@.len());
        assert("NSEC3"@.len() != "SRV"@.len());
        assert("NSEC3"@.len() != "DS"@.len());
        assert("NSEC3"@[0] != "SSHFP"@[0]);
        assert("NSEC3"@[0] != "RRSIG"@[0]);
        assert("NSEC3"@.len() != "NSEC"@.len());
        assert("NSEC3"@.len() != "DNSKEY"@.len());
    }
    if u == "TLSA"@ {
        assert("TLSA"@.len() != "A"@.len());
        assert("TLSA"@.len() != "NS"@.len());
        assert("TLSA"@.len() != "CNAME"@.len());
        assert("TLSA"@.len() != "SOA"@.len());
        assert("TLSA"@.len() != "PTR"@.len());
        assert("TLSA"@.len() != "MX"@.len());
        assert("TLSA"@.len() != "TXT"@.len());
        assert("TLSA"@[0] != "AAAA"@[0]);
        assert("TLSA"@.len() != "SRV"@.len());
        assert("TLSA"@.len() != "DS"@.len());
        assert("TLSA"@.len() != "SSHFP"@.len());
        assert("TLSA"@.len() != "RRSIG"@.len());
        assert("TLSA"@[0] != "NSEC"@[0]);
        assert("TLSA"@.len() != "DNSKEY"@.len());
        assert("TLSA"@.len() != "NSEC3"@.len());
    }
    if u == "HTTPS"@ {
        assert("HTTPS"@.len() != "A"@.len());
        assert("HTTPS"@.len() != "NS"@.len());
        assert("HTTPS"@[0] != "CNAME"@[0]);
        assert("HTTPS"@.len() != "SOA"@.len());
        assert("HTTPS"@.len() != "PTR"@.len());
        assert("HTTPS"@.len() != "MX"@.len());
        assert("HTTPS"@.len() != "TXT"@.len());
        assert("HTTPS"@.len() != "AAAA"@.len());
        assert("HTTPS"@.len() != "SRV"@.len());
        assert("HTTPS"@.len() != "DS"@.len());
        assert("HTTPS"@[0] != "SSHFP"@[0]);
        assert("HTTPS"@[0] != "RRSIG"@[0]);
        assert("HTTPS"@.len() != "NSEC"@.len());
        assert("HTTPS"@.len() != "DNSKEY"@.len());
        assert("HTTPS"@[0] != "NSEC3"@[0]);
        assert("HTTPS"@.len() != "TLSA"@.len());
    }
    if u == "SVCB"@ {
        assert("SVCB"@.len() != "A"@.len());
        assert("SVCB"@.len() != "NS"@.len());
        assert("SVCB"@.len() != "CNAME"@.len());
        assert("SVCB"@.len() != "SOA"@.len());
        assert("SVCB"@.len() != "PTR"@.len());
        assert("SVCB"@.len() != "MX"@.len());
        assert("SVCB"@.len() != "TXT"@.len());
        assert("SVCB"@[0] != "AAAA"@[0]);
        assert("SVCB"@.len() != "SRV"@.len());
        assert("SVCB"@.len() != "DS"@.len());
        assert("SVCB"@.len() != "SSHFP"@.len());
        assert("SVCB"@.len() != "RRSIG"@.len());
        assert("SVCB"@[0] != "NSEC"@[0]);
        assert("SVCB"@.len() != "DNSKEY"@.len());
        assert("SVCB"@.len() != "NSEC3"@.len());
        assert("SVCB"@[0] != "TLSA"@[0]);
        assert("SVCB"@.len() != "HTTPS"@.len());
    }
    if u == "CAA"@ {
        assert("CAA"@.len() != "A"@.len());
        assert("CAA"@.len() != "NS"@.len());
        assert("CAA"@.len() != "CNAME"@.len());
        assert("CAA"@[0] != "SOA"@[0]);
        assert("CAA"@[0] != "PTR"@[0]);
        assert("CAA"@.len() != "MX"@.len());
        assert("CAA"@[0] != "TXT"@[0]);
        assert("CAA"@.len() != "AAAA"@.len());
        assert("CAA"@[0] != "SRV"@[0]);
        assert("CAA"@.len() != "DS"@.len());
        assert("CAA"@.len() != "SSHFP"@.len());
        assert("CAA"@.len() != "RRSIG"@.len());
        assert("CAA"@.len() != "NSEC"@.len());
        assert("CAA"@.len() != "DNSKEY"@.len());
        assert("CAA"@.len() != "NSEC3"@.len());
        assert("CAA"@.len() != "TLSA"@.len());
        assert("CAA"@.len() != "HTTPS"@.len());
        assert("CAA"@.len() != "SVCB"@.len());
    }
    if u == "ANY"@ {
        assert("ANY"@.len() != "A"@.len());
        assert("ANY"@.len() != "NS"@.len());
        assert("ANY"@.len() != "CNAME"@.len());
        assert("ANY"@[0] != "SOA"@[0]);
        assert("ANY"@[0] != "PTR"@[0]);
        assert("ANY"@.len() != "MX"@.len());
        assert("ANY"@[0] != "TXT"@[0]);
        assert("ANY"@.len() != "AAAA"@.len());
        assert("ANY"@[0] != "SRV"@[0]);
        assert("ANY"@.len() != "DS"@.len());
        assert("ANY"@.len() != "SSHFP"@.len());
        assert("ANY"@.len() != "RRSIG"@.len());
        assert("ANY"@.len() != "NSEC"@.len());
        assert("ANY"@.len() != "DNSKEY"@.len());
        assert("ANY"@.len() != "NSEC3"@.len());
        assert("ANY"@.len() != "TLSA"@.len());
        assert("ANY"@.len() != "HTTPS"@.len());
        assert("ANY"@.len() != "SVCB"@.len());
        assert("ANY"@[0] != "CAA"@[0]);
    }
    if s.len() > 0 && 'A' <= to_upper(s)[0] <= 'Z' {
        lemma_letter_is_no_number(s);
    }
}

// ---------------------------------------------------------------------------
// The JSON view

/// Record type A.
pub const TYPE_A: u16 = 1;
/// Record type NS.
pub const TYPE_NS: u16 = 2;
/// Record type CNAME.
pub const TYPE_CNAME: u16 = 5;
/// Record type SOA.
pub const TYPE_SOA: u16 = 6;
/// Record type PTR.
pub const TYPE_PTR: u16 = 12;
/// Record type MX.
pub const TYPE_MX: u16 = 15;
/// Record type TXT.
pub const TYPE_TXT: u16 = 16;
/// Record type AAAA.
pub const TYPE_AAAA: u16 = 28;
/// Record type SRV.
pub const TYPE_SRV: u16 = 33;
/// Record type CAA.
pub const TYPE_CAA: u16 = 257;
/// Record type OPT.
pub const TYPE_OPT: u16 = 41;
/// Class IN.
pub const CLASS_IN: u16 = 1;

/// A question: the queried name and record type.
#[derive(Debug, Clone)]
pub struct DnsQuestion {
    pub name: String,
    pub qtype: u16,
}

/// A resource record: owner name, type, TTL and data.
#[derive(Debug, Clone)]
pub struct DnsAnswer {
    pub name: String,
    pub rtype: u16,
    pub ttl: u32,
    pub data: String,
}

/// A DNS response in the JSON format: status (the response code), the TC, RD,
/// RA, AD and CD flags, and the sections that are present.
#[derive(Debug, Clone)]
pub struct DnsJsonResponse {
    pub status: u16,
    pub tc: bool,
    pub rd: bool,
    pub ra: bool,
    pub ad: bool,
    pub cd: bool,
    pub question: Option<Vec<DnsQuestion>>,
    pub answer: Option<Vec<DnsAnswer>>,
    pub authority: Option<Vec<DnsAnswer>>,
    pub additional: Option<Vec<DnsAnswer>>,
    pub comment: Option<String>,
}

/// The model of a question.
pub struct QuestionView {
    pub name: Seq<char>,
    pub qtype: u16,
}

/// The model of an answer.
pub struct AnswerView {
    pub name: Seq<char>,
    pub rtype: u16,
    pub ttl: u32,
    pub data: Seq<char>,
}

/// The model of a JSON response.
pub struct ResponseView {
    pub status: u16,
    pub tc: bool,
    pub rd: bool,
    pub ra: bool,
    pub ad: bool,
    pub cd: bool,
    pub question: Option<Seq<QuestionView>>,
    pub answer: Option<Seq<AnswerView>>,
    pub authority: Option<Seq<AnswerView>>,
    pub additional: Option<Seq<AnswerView>>,
    pub comment: Option<Seq<char>>,
}

impl View for DnsQuestion {
    type V = QuestionView;

    open spec fn view(&self) -> QuestionView {
        QuestionView { name: self.name@, qtype: self.qtype }
    }
}

impl View for DnsAnswer {
    type V = AnswerView;

    open spec fn view(&self) -> AnswerView {
        AnswerView { name: self.name@, rtype: self.rtype, ttl: self.ttl, data: self.data@ }
    }
}

/// The models of a list of questions.
pub open spec fn questions_view(v: Seq<DnsQuestion>) -> Seq<QuestionView> {
    v.map_values(|q: DnsQuestion| q@)
}

/// The models of a list of answers.
pub open spec fn answers_view(v: Seq<DnsAnswer>) -> Seq<AnswerView> {
    v.map_values(|a: DnsAnswer| a@)
}

/// The model of an optional list of answers.
pub open spec fn section_view(v: Option<Vec<DnsAnswer>>) -> Option<Seq<AnswerView>> {
    match v {
        Some(v) => Some(answers_view(v@)),
        None => None,
    }
}

impl View for DnsJsonResponse {
    type V = ResponseView;

    open spec fn view(&self) -> ResponseView {
        ResponseView {
            status: self.status,
            tc: self.tc,
            rd: self.rd,
            ra: self.ra,
            ad: self.ad,
            cd: self.cd,
            question: match self.question {
                Some(v) => Some(questions_view(v@)),
                None => None,
            },
            answer: section_view(self.answer),
            authority: section_view(self.authority),
            additional: section_view(self.additional),
            comment: match self.comment {
                Some(c) => Some(c@),
                None => None,
            },
        }
    }
}

// ---------------------------------------------------------------------------
// Names, with compression

/// Walking the name at `off` for at most `fuel` steps: a byte of 0xc0 or more
/// and the next byte form a pointer to the rest of the name (the first
/// pointer fixes where the name ends: two bytes after it); a zero byte ends
/// the name; any other byte is the length of a label that follows. `None`
/// means the walk needs more steps (pointers may form a loop). `Ok` holds the
/// labels and the offset after the name.
pub open spec fn name_walk(p: Seq<u8>, off: int, jumped: bool, jump_off: int, fuel: nat) -> Option<Result<(Seq<Seq<u8>>, int), DnsError>>
    decreases fuel,
{
    if fuel == 0 {
        None
    } else if off < 0 || off >= p.len() {
        Some(Err(DnsError::NameBeyondPacket))
    } else if p[off] >= 0xc0 {
        if !(off + 1 < p.len()) {
            Some(Err(DnsError::IncompletePointer))
        } else {
            name_walk(
                p,
                (p[off] - 0xc0) * 256 + p[off + 1],
                true,
                if jumped { jump_off } else { off + 2 },
                (fuel - 1) as nat,
            )
        }
    } else if p[off] == 0 {
        Some(Ok((seq![], if jumped { jump_off } else { off + 1 })))
    } else if !(off + 1 + p[off] <= p.len()) {
        Some(Err(DnsError::LabelBeyondPacket))
    } else {
        match name_walk(p, off + 1 + p[off], jumped, jump_off, (fuel - 1) as nat) {
            Some(Ok((labels, e))) => Some(Ok((seq![p.subrange(off + 1, off + 1 + p[off])] + labels, e))),
            other => other,
        }
    }
}

/// Whether the walk of the name at `off` ends.
pub open spec fn walk_terminates(p: Seq<u8>, off: int) -> bool {
    exists|f: nat| #[trigger] name_walk(p, off, false, 0, f) is Some
}

/// Appends a label to a name: a dot first unless the name is still empty,
/// then the label's bytes as `String::from_utf8_lossy` reads them.
pub open spec fn join_step(acc: Seq<char>, label: Seq<u8>) -> Seq<char> {
    join_text(acc, utf8_lossy_text(label), '.')
}

/// Appends `t` to `acc`, after the separator `sep` unless `acc` is empty.
pub open spec fn join_text(acc: Seq<char>, t: Seq<char>, sep: char) -> Seq<char> {
    (if acc.len() == 0 { acc } else { acc.push(sep) }) + t
}

/// Appends `text` to `acc`, after the separator `sep` unless `acc` is empty.
pub fn append_separated(acc: &mut String, text: &str, sep: char)
    ensures
        final(acc)@ == join_text(old(acc)@, text@, sep),
{
    if !acc.as_str().is_empty() {
        push_char(acc, sep);
    }
    acc.append(text);
}

/// Appends the labels, in order, to a name.
pub open spec fn join_labels(acc: Seq<char>, labels: Seq<Seq<u8>>) -> Seq<char>
    decreases labels.len(),
{
    if labels.len() == 0 {
        acc
    } else {
        join_labels(join_step(acc, labels[0]), labels.drop_first())
    }
}

/// The outcome of a walk, with the labels appended to `acc`.
pub open spec fn walk_text(acc: Seq<char>, w: Option<Result<(Seq<Seq<u8>>, int), DnsError>>) -> Option<Result<(Seq<char>, int), DnsError>> {
    match w {
        None => None,
        Some(Err(e)) => Some(Err(e)),
        Some(Ok((labels, e))) => Some(Ok((join_labels(acc, labels), e))),
    }
}

/// The name at `off` as text, with the offset after it; `None` when its walk
/// never ends.
pub open spec fn name_parse(p: Seq<u8>, off: int) -> Option<Result<(Seq<char>, int), DnsError>> {
    if walk_terminates(p, off) {
        walk_text(seq![], name_walk(p, off, false, 0, choose|f: nat| #[trigger] name_walk(p, off, false, 0, f) is Some))
    } else {
        None
    }
}

/// Maps a parsed name to its model.
pub open spec fn lift_name(r: Result<(String, usize), DnsError>) -> Result<(Seq<char>, int), DnsError> {
    match r {
        Ok((s, e)) => Ok((s@, e as int)),
        Err(e) => Err(e),
    }
}

/// Reads the possibly compressed name at `offset`: its labels joined by dots,
/// and the offset after it (after the first pointer, if there is one). The
/// walk must end: pointers forming a loop are never left.
pub fn parse_name(packet: &[u8], offset: usize) -> (r: Result<(String, usize), DnsError>)
    requires
        walk_terminates(packet@, offset as int),
    ensures
        name_parse(packet@, offset as int) == Some(lift_name(r)),
        r matches Ok((_, e)) ==> e <= packet@.len(),
{
    let ghost p = packet@;
    let ghost f0 = choose|f: nat| #[trigger] name_walk(p, offset as int, false, 0, f) is Some;
    let ghost mut fuel: nat = f0;
    let mut name = String::new();
    let mut jumped = false;
    let mut jump_offset: usize = 0;
    let mut pos = offset;
    let packet_len = packet.len();
    loop
        invariant
            p == packet@,
            packet_len == p.len(),
            name_walk(p, offset as int, false, 0, f0) is Some,
            name_walk(p, pos as int, jumped, jump_offset as int, fuel) is Some,
            walk_text(name@, name_walk(p, pos as int, jumped, jump_offset as int, fuel))
                == name_parse(p, offset as int),
            jumped ==> jump_offset <= packet_len,
        decreases fuel,
    {
        if !(pos < packet_len) {
            return Err(DnsError::NameBeyondPacket);
        }
        let len = packet[pos];
        assert((len & 0xc0 == 0xc0) == (len >= 0xc0)) by (bit_vector);
        if len & 0xc0 == 0xc0 {
            if !(pos + 1 < packet_len) {
                return Err(DnsError::IncompletePointer);
            }
            if !jumped {
                jump_offset = pos + 2;
            }
            let lo = packet[pos + 1];
            assert(len >= 0xc0 ==> (((len & 0x3f) as usize) << 8usize) | (lo as usize) == ((len - 0xc0) as usize) * 256 + lo as usize)
                by (bit_vector);
            pos = (((len & 0x3f) as usize) << 8) | (lo as usize);
            jumped = true;
            proof {
                fuel = (fuel - 1) as nat;
            }
            continue;
        }
        pos = pos + 1;
        if len == 0 {
            if jumped {
                return Ok((name, jump_offset));
            } else {
                return Ok((name, pos));
            }
        }
        let ghost before = name@;
        if !(len as usize <= packet_len - pos) {
            return Err(DnsError::LabelBeyondPacket);
        }
        let label = utf8_lossy(slice_subrange(packet, pos, pos + len as usize));
        append_separated(&mut name, label.as_str(), '.');
        proof {
            let lab = p.subrange(pos as int, pos + len as int);
            assert(name@ == join_step(before, lab));
            let rest = name_walk(p, pos + len as int, jumped, jump_offset as int, (fuel - 1) as nat);
            if let Some(Ok((ls, e))) = rest {
                let all = seq![lab] + ls;
                assert(all[0] == lab);
                assert(all.drop_first() =~= ls);
            }
            fuel = (fuel - 1) as nat;
        }
        pos = pos + len as usize;
    }
}

/// Reads the name at `offset` if its walk ends: `None` where it never would.
pub fn try_parse_name(packet: &[u8], offset: usize) -> (r: Option<Result<(String, usize), DnsError>>)
    ensures
        match r {
            Some(x) => name_parse(packet@, offset as int) == Some(lift_name(x)) && (x matches Ok((_, e))
                ==> e <= packet@.len()),
            None => name_parse(packet@, offset as int) is None,
        },
{
    if name_walk_ends(packet, offset) {
        Some(parse_name(packet, offset))
    } else {
        None
    }
}

// ---------------------------------------------------------------------------
// Record data

/// The dotted-decimal text of an IPv4 address, as `std::net::Ipv4Addr` writes it.
pub open spec fn ipv4_text(a: u8, b: u8, c: u8, d: u8) -> Seq<char> {
    decimal(a as nat) + seq!['.'] + decimal(b as nat) + seq!['.'] + decimal(c as nat) + seq!['.']
        + decimal(d as nat)
}

/// The text of TXT data from `pos` to `end`: each character-string (a length
/// byte and that many bytes) as `String::from_utf8_lossy` reads it, separated
/// by spaces, up to the first one that does not fit.
pub open spec fn txt_text(p: Seq<u8>, pos: int, end: int, acc: Seq<char>) -> Seq<char>
    decreases end - pos,
{
    if pos < end && pos + 1 + p[pos] <= end {
        txt_text(
            p,
            pos + 1 + p[pos],
            end,
            join_text(acc, utf8_lossy_text(p.subrange(pos + 1, pos + 1 + p[pos])), ' '),
        )
    } else {
        acc
    }
}

/// The text of CAA data at `o` of length `rdlen`: flags, tag and quoted value.
pub open spec fn caa_text(p: Seq<u8>, o: int, rdlen: int) -> Seq<char> {
    caa_format(
        p[o],
        utf8_lossy_text(p.subrange(o + 2, o + 2 + p[o + 1])),
        utf8_lossy_text(p.subrange(o + 2 + p[o + 1], o + rdlen)),
    )
}

/// CAA data as text: the flags in decimal, the tag, and the value in quotes.
pub open spec fn caa_format(flags: u8, tag: Seq<char>, value: Seq<char>) -> Seq<char> {
    decimal(flags as nat) + seq![' '] + tag + seq![' ', '"'] + value + seq!['"']
}

/// CAA data as text, from its flags, tag and value.
pub fn caa_format_of(flags: u8, tag: &str, value: &str) -> (s: String)
    ensures
        s@ == caa_format(flags, tag@, value@),
{
    let mut s = String::new();
    push_decimal(&mut s, flags as u32);
    push_char(&mut s, ' ');
    s.append(tag);
    push_char(&mut s, ' ');
    push_char(&mut s, '"');
    s.append(value);
    push_char(&mut s, '"');
    proof {
        assert(s@ =~= caa_format(flags, tag@, value@));
    }
    s
}

/// Data made of a name, after `prefix`.
pub open spec fn name_data(n: Option<Result<(Seq<char>, int), DnsError>>, prefix: Seq<char>) -> Option<Result<Seq<char>, DnsError>> {
    match n {
        None => None,
        Some(Err(e)) => Some(Err(e)),
        Some(Ok((t, _))) => Some(Ok(prefix + t)),
    }
}

/// The data of a record of type `rtype` whose `rdlen` bytes start at `o`: an
/// A record as dotted decimal; an AAAA record as IPv6 text; CNAME, NS
/// and PTR as the name; MX as preference and exchange; TXT as its strings; SOA
/// as a note of its size; SRV as priority, weight, port and target; CAA as
/// flags, tag and value; anything else, or data of an unexpected size, as base64.
pub open spec fn record_data_spec(p: Seq<u8>, o: int, rtype: u16, rdlen: int) -> Option<Result<Seq<char>, DnsError>> {
    if rtype == TYPE_A && rdlen == 4 {
        Some(Ok(ipv4_text(p[o], p[o + 1], p[o + 2], p[o + 3])))
    } else if rtype == TYPE_AAAA && rdlen == 16 {
        Some(Ok(ipv6_text(p.subrange(o, o + 16))))
    } else if rtype == TYPE_CNAME || rtype == TYPE_NS || rtype == TYPE_PTR {
        name_data(name_parse(p, o), seq![])
    } else if rtype == TYPE_MX && rdlen >= 2 {
        name_data(name_parse(p, o + 2), decimal(be16(p, o) as nat) + seq![' '])
    } else if rtype == TYPE_TXT {
        Some(Ok(txt_text(p, o, o + rdlen, seq![])))
    } else if rtype == TYPE_SOA {
        Some(Ok("<SOA record, "@ + decimal(rdlen as nat) + " bytes>"@))
    } else if rtype == TYPE_SRV && rdlen >= 6 {
        name_data(
            name_parse(p, o + 6),
            decimal(be16(p, o) as nat) + seq![' '] + decimal(be16(p, o + 2) as nat) + seq![' ']
                + decimal(be16(p, o + 4) as nat) + seq![' '],
        )
    } else if rtype == TYPE_CAA && rdlen >= 2 && 2 + p[o + 1] <= rdlen {
        Some(Ok(caa_text(p, o, rdlen)))
    } else {
        Some(Ok(base64_standard(p.subrange(o, o + rdlen))))
    }
}

/// Maps record data to its model.
pub open spec fn lift_data(r: Result<String, DnsError>) -> Result<Seq<char>, DnsError> {
    match r {
        Ok(d) => Ok(d@),
        Err(e) => Err(e),
    }
}

fn text_data(s: String) -> (r: Result<String, DnsError>)
    ensures
        lift_data(r) == Ok::<Seq<char>, DnsError>(s@),
{
    Ok(s)
}

fn ipv4_string(a: u8, b: u8, c: u8, d: u8) -> (s: String)
    ensures
        s@ == ipv4_text(a, b, c, d),
{
    let mut s = String::new();
    push_decimal(&mut s, a as u32);
    push_char(&mut s, '.');
    push_decimal(&mut s, b as u32);
    push_char(&mut s, '.');
    push_decimal(&mut s, c as u32);
    push_char(&mut s, '.');
    push_decimal(&mut s, d as u32);
    proof {
        assert(s@ =~= ipv4_text(a, b, c, d));
    }
    s
}

/// The eight 16-bit groups of an IPv6 address, each read big-endian.
pub open spec fn ipv6_groups(a: Seq<u8>) -> Seq<u16> {
    Seq::new(8, |i: int| be16(a, 2 * i) as u16)
}

/// Whether an IPv6 address is IPv4-mapped: ten zero bytes, then two 0xff.
pub open spec fn is_ipv4_mapped(a: Seq<u8>) -> bool {
    &&& forall|i: int| 0 <= i < 10 ==> #[trigger] a[i] == 0
    &&& a[10] == 0xff
    &&& a[11] == 0xff
}

/// The number of zero groups in a row from `i`.
pub open spec fn zero_run(g: Seq<u16>, i: int) -> nat
    decreases g.len() - i,
{
    if 0 <= i < g.len() && g[i] == 0 {
        1 + zero_run(g, i + 1)
    } else {
        0
    }
}

/// The start and length of the longest run of zero groups at or after `i`;
/// of runs of the same length, the first.
pub open spec fn longest_zero_run(g: Seq<u16>, i: int) -> (int, nat)
    decreases g.len() - i,
{
    if i < 0 || i >= g.len() {
        (i, 0)
    } else {
        let (start, len) = longest_zero_run(g, i + 1);
        if zero_run(g, i) >= len {
            (i, zero_run(g, i))
        } else {
            (start, len)
        }
    }
}

/// Groups in lower-case hexadecimal, separated by colons.
pub open spec fn hex_groups(g: Seq<u16>) -> Seq<char>
    decreases g.len(),
{
    if g.len() == 0 {
        seq![]
    } else if g.len() == 1 {
        hex(g[0] as nat)
    } else {
        hex_groups(g.drop_last()) + seq![':'] + hex(g.last() as nat)
    }
}

/// The text of an IPv6 address, as `std::net::Ipv6Addr` writes it: an
/// IPv4-mapped address as `::ffff:` and dotted decimal; otherwise the groups
/// in hexadecimal, with the longest run of two or more zero groups (the first
/// of equal runs) written as `::`.
pub open spec fn ipv6_text(a: Seq<u8>) -> Seq<char> {
    let g = ipv6_groups(a);
    if is_ipv4_mapped(a) {
        "::ffff:"@ + ipv4_text(a[12], a[13], a[14], a[15])
    } else {
        let (start, len) = longest_zero_run(g, 0);
        if len > 1 {
            hex_groups(g.subrange(0, start)) + "::"@ + hex_groups(g.subrange(start + len, 8))
        } else {
            hex_groups(g)
        }
    }
}

proof fn lemma_zero_run_bound(g: Seq<u16>, i: int)
    requires
        0 <= i <= g.len(),
    ensures
        zero_run(g, i) <= g.len() - i,
    decreases g.len() - i,
{
    if i < g.len() {
        lemma_zero_run_bound(g, i + 1);
    }
}

/// The longest run of zero groups in `g`, as `(start, length)`.
fn longest_zero_run_of(g: &Vec<u16>) -> (r: (usize, usize))
    ensures
        (r.0 as int, r.1 as nat) == longest_zero_run(g@, 0),
        r.0 + r.1 <= g@.len(),
{
    let n: usize = g.len();
    let mut i: usize = n;
    let mut cur: usize = 0;
    let mut start: usize = n;
    let mut len: usize = 0;
    while i > 0
        invariant
            i <= n,
            n == g@.len(),
            cur as nat == zero_run(g@, i as int),
            (start as int, len as nat) == longest_zero_run(g@, i as int),
            start + len <= n,
        decreases i,
    {
        i = i - 1;
        proof {
            lemma_zero_run_bound(g@, i as int);
        }
        if g[i] == 0 {
            cur = cur + 1;
        } else {
            cur = 0;
        }
        if cur >= len {
            start = i;
            len = cur;
        }
    }
    (start, len)
}

/// Appends the groups `g[lo..hi]` in hexadecimal, separated by colons.
fn push_hex_groups(s: &mut String, g: &Vec<u16>, lo: usize, hi: usize)
    requires
        lo <= hi <= g@.len(),
    ensures
        final(s)@ == old(s)@ + hex_groups(g@.subrange(lo as int, hi as int)),
{
    let mut j: usize = lo;
    while j < hi
        invariant
            lo <= j <= hi <= g@.len(),
            s@ == old(s)@ + hex_groups(g@.subrange(lo as int, j as int)),
        decreases hi - j,
    {
        let ghost before = s@;
        if j > lo {
            push_char(s, ':');
        }
        push_hex(s, g[j] as u32);
        proof {
            let sub = g@.subrange(lo as int, j + 1);
            assert(sub.drop_last() =~= g@.subrange(lo as int, j as int));
            assert(s@ =~= old(s)@ + hex_groups(sub));
        }
        j = j + 1;
    }
}

/// The text of the IPv6 address held by the sixteen bytes `addr`.
pub fn ipv6_string(addr: &[u8]) -> (s: String)
    requires
        addr@.len() == 16,
    ensures
        s@ == ipv6_text(addr@),
{
    let mut g: Vec<u16> = Vec::new();
    let mut i: usize = 0;
    while i < 8
        invariant
            i <= 8,
            addr@.len() == 16,
            g@ == ipv6_groups(addr@).subrange(0, i as int),
        decreases 8 - i,
    {
        g.push(read_u16_at(addr, 2 * i));
        proof {
            assert(g@ =~= ipv6_groups(addr@).subrange(0, i + 1));
        }
        i = i + 1;
    }
    assert(g@ =~= ipv6_groups(addr@));
    if addr[0] == 0 && addr[1] == 0 && addr[2] == 0 && addr[3] == 0 && addr[4] == 0 && addr[5] == 0
        && addr[6] == 0 && addr[7] == 0 && addr[8] == 0 && addr[9] == 0 && addr[10] == 0xff
        && addr[11] == 0xff {
        let mut s = String::from_str("::ffff:");
        s.append(ipv4_string(addr[12], addr[13], addr[14], addr[15]).as_str());
        proof {
            assert(is_ipv4_mapped(addr@));
        }
        s
    } else {
        proof {
            if is_ipv4_mapped(addr@) {
                assert(addr@[0] == 0 && addr@[1] == 0 && addr@[2] == 0 && addr@[3] == 0);
                assert(addr@[4] == 0 && addr@[5] == 0 && addr@[6] == 0 && addr@[7] == 0);
                assert(addr@[8] == 0 && addr@[9] == 0);
            }
        }
        let run: (usize, usize) = longest_zero_run_of(&g);
        let start: usize = run.0;
        let len: usize = run.1;
        let mut s = String::new();
        if len > 1 {
            push_hex_groups(&mut s, &g, 0, start);
            s.append("::");
            push_hex_groups(&mut s, &g, start + len, 8);
        } else {
            push_hex_groups(&mut s, &g, 0, 8);
            assert(g@.subrange(0, 8) =~= g@);
        }
        s
    }
}

fn txt_string(packet: &[u8], start: usize, end: usize) -> (s: String)
    requires
        start <= end <= packet@.len(),
    ensures
        s@ == txt_text(packet@, start as int, end as int, seq![]),
{
    let mut txt = String::new();
    let mut pos = start;
    while pos < end
        invariant_except_break
            start <= pos <= end,
            end <= packet@.len(),
            txt_text(packet@, start as int, end as int, seq![]) == txt_text(packet@, pos as int, end as int, txt@),
        ensures
            txt_text(packet@, start as int, end as int, seq![]) == txt@,
        decreases end - pos,
    {
        let len = packet[pos] as usize;
        pos = pos + 1;
        if len <= end - pos {
            let part = utf8_lossy(slice_subrange(packet, pos, pos + len));
            append_separated(&mut txt, part.as_str(), ' ');
            pos = pos + len;
        } else {
            break;
        }
    }
    txt
}

fn caa_string(packet: &[u8], o: usize, rdlen: usize) -> (s: String)
    requires
        o + rdlen <= packet@.len(),
        rdlen >= 2,
        2 + packet@[o + 1] <= rdlen,
    ensures
        s@ == caa_text(packet@, o as int, rdlen as int),
{
    let flags = packet[o];
    let tag_len = packet[o + 1] as usize;
    let tag = utf8_lossy(slice_subrange(packet, o + 2, o + 2 + tag_len));
    let value = utf8_lossy(slice_subrange(packet, o + 2 + tag_len, o + rdlen));
    caa_format_of(flags, tag.as_str(), value.as_str())
}

fn name_record_data(packet: &[u8], offset: usize, prefix: String) -> (r: Option<Result<String, DnsError>>)
    ensures
        match r {
            Some(x) => name_data(name_parse(packet@, offset as int), prefix@) == Some(lift_data(x)),
            None => name_parse(packet@, offset as int) is None,
        },
{
    match try_parse_name(packet, offset) {
        Some(Ok((name, _))) => {
            let mut s = prefix;
            s.append(name.as_str());
            Some(Ok(s))
        },
        Some(Err(e)) => Some(Err(e)),
        None => None,
    }
}

/// The data of the record of type `rtype` whose `rdlen` bytes start at `offset`.
fn record_data(packet: &[u8], offset: usize, rtype: u16, rdlen: usize) -> (r: Option<Result<String, DnsError>>)
    requires
        offset + rdlen <= packet@.len(),
        rdlen <= 0xffff,
    ensures
        match r {
            Some(x) => record_data_spec(packet@, offset as int, rtype, rdlen as int) == Some(lift_data(x)),
            None => record_data_spec(packet@, offset as int, rtype, rdlen as int) is None,
        },
{
    let packet_len = packet.len();
    assert(offset + rdlen <= packet_len);
    if rtype == TYPE_A && rdlen == 4 {
        Some(text_data(ipv4_string(packet[offset], packet[offset + 1], packet[offset + 2], packet[offset + 3])))
    } else if rtype == TYPE_AAAA && rdlen == 16 {
        Some(text_data(ipv6_string(slice_subrange(packet, offset, offset + 16))))
    } else if rtype == TYPE_CNAME || rtype == TYPE_NS || rtype == TYPE_PTR {
        name_record_data(packet, offset, String::new())
    } else if rtype == TYPE_MX && rdlen >= 2 {
        let preference = read_u16_at(packet, offset);
        let mut prefix = String::new();
        push_decimal(&mut prefix, preference as u32);
        push_char(&mut prefix, ' ');
        proof {
            assert(prefix@ =~= decimal(be16(packet@, offset as int) as nat) + seq![' ']);
        }
        name_record_data(packet, offset + 2, prefix)
    } else if rtype == TYPE_TXT {
        Some(text_data(txt_string(packet, offset, offset + rdlen)))
    } else if rtype == TYPE_SOA {
        let mut s = String::from_str("<SOA record, ");
        push_decimal(&mut s, rdlen as u32);
        s.append(" bytes>");
        Some(text_data(s))
    } else if rtype == TYPE_SRV && rdlen >= 6 {
        let priority = read_u16_at(packet, offset);
        let weight = read_u16_at(packet, offset + 2);
        let port = read_u16_at(packet, offset + 4);
        let mut prefix = String::new();
        push_decimal(&mut prefix, priority as u32);
        push_char(&mut prefix, ' ');
        push_decimal(&mut prefix, weight as u32);
        push_char(&mut prefix, ' ');
        push_decimal(&mut prefix, port as u32);
        push_char(&mut prefix, ' ');
        proof {
            assert(prefix@ =~= decimal(be16(packet@, offset as int) as nat) + seq![' ']
                + decimal(be16(packet@, offset + 2) as nat) + seq![' ']
                + decimal(be16(packet@, offset + 4) as nat) + seq![' ']);
        }
        name_record_data(packet, offset + 6, prefix)
    } else if rtype == TYPE_CAA && rdlen >= 2 && 2 + packet[offset + 1] as usize <= rdlen {
        Some(text_data(caa_string(packet, offset, rdlen)))
    } else {
        Some(text_data(base64_encode(slice_subrange(packet, offset, offset + rdlen))))
    }
}

// ---------------------------------------------------------------------------
// Sections

/// Reading `n` records from `off`: each is a name, then type, class, TTL and
/// data length, then the data. Records of a class other than IN, and OPT
/// records, are skipped. `Ok` holds the records read and the offset after them.
pub open spec fn rrs_parse(p: Seq<u8>, off: int, n: nat) -> Option<Result<(Seq<AnswerView>, int), DnsError>>
    decreases n,
{
    if n == 0 {
        Some(Ok((seq![], off)))
    } else {
        match rrs_parse(p, off, (n - 1) as nat) {
            Some(Ok((recs, o))) => match name_parse(p, o) {
                None => None,
                Some(Err(e)) => Some(Err(e)),
                Some(Ok((name, o1))) => if !(o1 + 10 <= p.len()) {
                    Some(Err(DnsError::IncompleteRecord))
                } else {
                    let rtype = be16(p, o1) as u16;
                    let class = be16(p, o1 + 2);
                    let ttl = be32(p, o1 + 4) as u32;
                    let rdlen = be16(p, o1 + 8);
                    let o2 = o1 + 10;
                    if !(o2 + rdlen <= p.len()) {
                        Some(Err(DnsError::RdataBeyondPacket))
                    } else if class != CLASS_IN || rtype == TYPE_OPT {
                        Some(Ok((recs, o2 + rdlen)))
                    } else {
                        match record_data_spec(p, o2, rtype, rdlen) {
                            None => None,
                            Some(Err(e)) => Some(Err(e)),
                            Some(Ok(d)) => Some(
                                Ok(
                                    (
                                        recs.push(AnswerView { name: name, rtype: rtype, ttl: ttl, data: d }),
                                        o2 + rdlen,
                                    ),
                                ),
                            ),
                        }
                    }
                },
            },
            other => other,
        }
    }
}

/// Once reading records fails or does not end, reading more does the same.
pub proof fn lemma_rrs_parse_stuck(p: Seq<u8>, off: int, i: nat, n: nat)
    requires
        i <= n,
        !(rrs_parse(p, off, i) matches Some(Ok(_))),
    ensures
        rrs_parse(p, off, n) == rrs_parse(p, off, i),
    decreases n,
{
    if n > i {
        lemma_rrs_parse_stuck(p, off, i, (n - 1) as nat);
    }
}

/// Maps parsed records to their model.
pub open spec fn lift_rrs(r: Result<(Vec<DnsAnswer>, usize), DnsError>) -> Result<(Seq<AnswerView>, int), DnsError> {
    match r {
        Ok((v, e)) => Ok((answers_view(v@), e as int)),
        Err(e) => Err(e),
    }
}

fn parse_rrs(packet: &[u8], offset: usize, count: u16) -> (r: Option<Result<(Vec<DnsAnswer>, usize), DnsError>>)
    requires
        offset <= packet@.len(),
    ensures
        match r {
            Some(x) => rrs_parse(packet@, offset as int, count as nat) == Some(lift_rrs(x)) && (x matches Ok(
                (_, e),
            ) ==> e <= packet@.len()),
            None => rrs_parse(packet@, offset as int, count as nat) is None,
        },
{
    let ghost p = packet@;
    let mut records: Vec<DnsAnswer> = Vec::new();
    let packet_len = packet.len();
    let mut pos = offset;
    let mut i: u16 = 0;
    assert(answers_view(records@) =~= Seq::<AnswerView>::empty());
    while i < count
        invariant
            p == packet@,
            packet_len == p.len(),
            i <= count,
            pos <= packet_len,
            rrs_parse(p, offset as int, i as nat) == Some(Ok::<(Seq<AnswerView>, int), DnsError>((answers_view(records@), pos as int))),
        decreases count - i,
    {
        let ghost prev = answers_view(records@);
        let (name, o1) = match try_parse_name(packet, pos) {
            Some(Ok(v)) => v,
            Some(Err(e)) => {
                proof {
                    lemma_rrs_parse_stuck(p, offset as int, (i + 1) as nat, count as nat);
                }
                return Some(Err(e));
            },
            None => {
                proof {
                    lemma_rrs_parse_stuck(p, offset as int, (i + 1) as nat, count as nat);
                }
                return None;
            },
        };
        if !(packet_len - o1 >= 10) {
            proof {
                lemma_rrs_parse_stuck(p, offset as int, (i + 1) as nat, count as nat);
            }
            return Some(Err(DnsError::IncompleteRecord));
        }
        let rtype = read_u16_at(packet, o1);
        let class = read_u16_at(packet, o1 + 2);
        let ttl = read_u32_at(packet, o1 + 4);
        let rdlength = read_u16_at(packet, o1 + 8) as usize;
        let o2 = o1 + 10;
        if !(rdlength <= packet_len - o2) {
            proof {
                lemma_rrs_parse_stuck(p, offset as int, (i + 1) as nat, count as nat);
            }
            return Some(Err(DnsError::RdataBeyondPacket));
        }
        if class != CLASS_IN || rtype == TYPE_OPT {
            pos = o2 + rdlength;
            i = i + 1;
            continue;
        }
        let data = match record_data(packet, o2, rtype, rdlength) {
            Some(Ok(d)) => d,
            Some(Err(e)) => {
                proof {
                    lemma_rrs_parse_stuck(p, offset as int, (i + 1) as nat, count as nat);
                }
                return Some(Err(e));
            },
            None => {
                proof {
                    lemma_rrs_parse_stuck(p, offset as int, (i + 1) as nat, count as nat);
                }
                return None;
            },
        };
        records.push(DnsAnswer { name, rtype, ttl, data });
        proof {
            assert(answers_view(records@) =~= prev.push(records@.last()@));
        }
        pos = o2 + rdlength;
        i = i + 1;
    }
    Some(Ok((records, pos)))
}

/// Reading `n` questions from `off`: each is a name, then type and class.
/// `Ok` holds the questions and the offset after them.
pub open spec fn questions_parse(p: Seq<u8>, off: int, n: nat) -> Option<Result<(Seq<QuestionView>, int), DnsError>>
    decreases n,
{
    if n == 0 {
        Some(Ok((seq![], off)))
    } else {
        match questions_parse(p, off, (n - 1) as nat) {
            Some(Ok((qs, o))) => match name_parse(p, o) {
                None => None,
                Some(Err(e)) => Some(Err(e)),
                Some(Ok((name, o1))) => if !(o1 + 4 <= p.len()) {
                    Some(Err(DnsError::IncompleteQuestion))
                } else {
                    Some(Ok((qs.push(QuestionView { name: name, qtype: be16(p, o1) as u16 }), o1 + 4)))
                },
            },
            other => other,
        }
    }
}

/// Once reading questions fails or does not end, reading more does the same.
pub proof fn lemma_questions_parse_stuck(p: Seq<u8>, off: int, i: nat, n: nat)
    requires
        i <= n,
        !(questions_parse(p, off, i) matches Some(Ok(_))),
    ensures
        questions_parse(p, off, n) == questions_parse(p, off, i),
    decreases n,
{
    if n > i {
        lemma_questions_parse_stuck(p, off, i, (n - 1) as nat);
    }
}

/// A section of the JSON view: present only when it holds a record.
pub open spec fn nonempty(s: Seq<AnswerView>) -> Option<Seq<AnswerView>> {
    if s.len() > 0 {
        Some(s)
    } else {
        None
    }
}

/// The JSON view of the response `p`: the response code and flags from the
/// header, then its questions and the records of its answer, authority and
/// additional sections. `None` when the walk of some name it reads never ends.
pub open spec fn parse_dns_to_json_spec(p: Seq<u8>) -> Option<Result<ResponseView, DnsError>> {
    if p.len() < 12 {
        Some(Err(DnsError::PacketTooShort))
    } else {
        let qd = be16(p, 4);
        match questions_parse(p, 12, qd as nat) {
            None => None,
            Some(Err(e)) => Some(Err(e)),
            Some(Ok((qs, o1))) => match rrs_parse(p, o1, be16(p, 6) as nat) {
                None => None,
                Some(Err(e)) => Some(Err(e)),
                Some(Ok((ans, o2))) => match rrs_parse(p, o2, be16(p, 8) as nat) {
                    None => None,
                    Some(Err(e)) => Some(Err(e)),
                    Some(Ok((auth, o3))) => match rrs_parse(p, o3, be16(p, 10) as nat) {
                        None => None,
                        Some(Err(e)) => Some(Err(e)),
                        Some(Ok((add, _))) => Some(
                            Ok(
                                ResponseView {
                                    status: spec_rcode(p) as u16,
                                    tc: p[2] & 0x02 != 0,
                                    rd: p[2] & 0x01 != 0,
                                    ra: p[3] & 0x80 != 0,
                                    ad: p[3] & 0x20 != 0,
                                    cd: p[3] & 0x10 != 0,
                                    question: if qd > 0 { Some(qs) } else { None },
                                    answer: nonempty(ans),
                                    authority: nonempty(auth),
                                    additional: nonempty(add),
                                    comment: None,
                                },
                            ),
                        ),
                    },
                },
            },
        }
    }
}

/// Maps a parsed response to its model.
pub open spec fn lift_response(r: Result<DnsJsonResponse, DnsError>) -> Result<ResponseView, DnsError> {
    match r {
        Ok(v) => Ok(v@),
        Err(e) => Err(e),
    }
}

fn section(records: Vec<DnsAnswer>) -> (r: Option<Vec<DnsAnswer>>)
    ensures
        section_view(r) == nonempty(answers_view(records@)),
{
    if records.len() > 0 {
        Some(records)
    } else {
        None
    }
}

/// Maps parsed questions to their model.
pub open spec fn lift_questions(r: Result<(Vec<DnsQuestion>, usize), DnsError>) -> Result<(Seq<QuestionView>, int), DnsError> {
    match r {
        Ok((v, e)) => Ok((questions_view(v@), e as int)),
        Err(e) => Err(e),
    }
}

fn parse_questions(packet: &[u8], count: u16) -> (r: Option<Result<(Vec<DnsQuestion>, usize), DnsError>>)
    requires
        packet@.len() >= 12,
    ensures
        match r {
            Some(x) => questions_parse(packet@, 12, count as nat) == Some(lift_questions(x)) && (x matches Ok(
                (_, e),
            ) ==> e <= packet@.len()),
            None => questions_parse(packet@, 12, count as nat) is None,
        },
{
    let ghost p = packet@;
    let packet_len = packet.len();
    let mut questions: Vec<DnsQuestion> = Vec::new();
    let mut offset: usize = 12;
    let mut i: u16 = 0;
    assert(questions_view(questions@) =~= Seq::<QuestionView>::empty());
    while i < count
        invariant
            p == packet@,
            packet_len == p.len(),
            i <= count,
            offset <= packet_len,
            questions_parse(p, 12, i as nat) == Some(Ok::<(Seq<QuestionView>, int), DnsError>((questions_view(questions@), offset as int))),
        decreases count - i,
    {
        let ghost prev = questions_view(questions@);
        let (name, new_offset) = match try_parse_name(packet, offset) {
            Some(Ok(v)) => v,
            Some(Err(e)) => {
                proof {
                    lemma_questions_parse_stuck(p, 12, (i + 1) as nat, count as nat);
                }
                return Some(Err(e));
            },
            None => {
                proof {
                    lemma_questions_parse_stuck(p, 12, (i + 1) as nat, count as nat);
                }
                return None;
            },
        };
        offset = new_offset;
        if !(packet_len - offset >= 4) {
            proof {
                lemma_questions_parse_stuck(p, 12, (i + 1) as nat, count as nat);
            }
            return Some(Err(DnsError::IncompleteQuestion));
        }
        let qtype = read_u16_at(packet, offset);
        offset = offset + 4;
        questions.push(DnsQuestion { name, qtype });
        proof {
            assert(questions_view(questions@) =~= prev.push(questions@.last()@));
        }
        i = i + 1;
    }
    Some(Ok((questions, offset)))
}

/// Maps a parsed section to its model: the records, if any, and the offset after them.
pub open spec fn lift_section(r: Result<(Option<Vec<DnsAnswer>>, usize), DnsError>) -> Result<(Option<Seq<AnswerView>>, int), DnsError> {
    match r {
        Ok((v, e)) => Ok((section_view(v), e as int)),
        Err(e) => Err(e),
    }
}

/// The records of a section, present when there are any, and the offset after them.
pub open spec fn section_parse(p: Seq<u8>, off: int, n: nat) -> Option<Result<(Option<Seq<AnswerView>>, int), DnsError>> {
    match rrs_parse(p, off, n) {
        None => None,
        Some(Err(e)) => Some(Err(e)),
        Some(Ok((recs, e))) => Some(Ok((nonempty(recs), e))),
    }
}

fn parse_section(packet: &[u8], offset: usize, count: u16) -> (r: Option<Result<(Option<Vec<DnsAnswer>>, usize), DnsError>>)
    requires
        offset <= packet@.len(),
    ensures
        match r {
            Some(x) => section_parse(packet@, offset as int, count as nat) == Some(lift_section(x)) && (x matches Ok(
                (_, e),
            ) ==> e <= packet@.len()),
            None => section_parse(packet@, offset as int, count as nat) is None,
        },
{
    if count > 0 {
        match parse_rrs(packet, offset, count) {
            Some(Ok((records, new_offset))) => Some(Ok((section(records), new_offset))),
            Some(Err(e)) => Some(Err(e)),
            None => None,
        }
    } else {
        assert(section_view(None) == nonempty(Seq::<AnswerView>::empty()));
        Some(Ok((None, offset)))
    }
}

/// The JSON view of the DNS response `packet`; see `parse_dns_to_json_spec`.
/// Every name it reads must have a walk that ends (see `name_walks_end`).
pub fn parse_dns_to_json(packet: &[u8]) -> (r: Result<DnsJsonResponse, DnsError>)
    requires
        parse_dns_to_json_spec(packet@) is Some,
    ensures
        parse_dns_to_json_spec(packet@) == Some(lift_response(r)),
{
    match parse_dns_to_json_checked(packet) {
        Some(r) => r,
        None => {
            proof {
                assert(false);
            }
            Err(DnsError::NameBeyondPacket)
        },
    }
}

/// Whether every name that the JSON view of `packet` reads has a walk that
/// ends, which `parse_dns_to_json` requires.
pub fn name_walks_end(packet: &[u8]) -> (b: bool)
    ensures
        b == (parse_dns_to_json_spec(packet@) is Some),
{
    parse_dns_to_json_checked(packet).is_some()
}

/// The JSON view of the DNS response `packet`, or `None` where the walk of a
/// name it reads would never end.
pub fn parse_dns_to_json_checked(packet: &[u8]) -> (r: Option<Result<DnsJsonResponse, DnsError>>)
    ensures
        match r {
            Some(x) => parse_dns_to_json_spec(packet@) == Some(lift_response(x)),
            None => parse_dns_to_json_spec(packet@) is None,
        },
{
    let ghost p = packet@;
    let packet_len = packet.len();
    if !(packet_len >= 12) {
        return Some(Err(DnsError::PacketTooShort));
    }
    let flags = read_u16_at(packet, 2);
    let qdcount = qdcount(packet);
    let ancount = ancount(packet);
    let nscount = read_u16_at(packet, 8);
    let arcount = arcount(packet);
    let hi = packet[2];
    let lo = packet[3];
    assert(flags == hi as u16 * 256 + lo as u16 ==> {
        &&& ((flags & 0x0200) != 0) == (hi & 0x02 != 0)
        &&& ((flags & 0x0100) != 0) == (hi & 0x01 != 0)
        &&& ((flags & 0x0080) != 0) == (lo & 0x80 != 0)
        &&& ((flags & 0x0020) != 0) == (lo & 0x20 != 0)
        &&& ((flags & 0x0010) != 0) == (lo & 0x10 != 0)
    }) by (bit_vector);
    let mut response = DnsJsonResponse {
        status: rcode(packet) as u16,
        tc: (flags & 0x0200) != 0,
        rd: (flags & 0x0100) != 0,
        ra: (flags & 0x0080) != 0,
        ad: (flags & 0x0020) != 0,
        cd: (flags & 0x0010) != 0,
        question: None,
        answer: None,
        authority: None,
        additional: None,
        comment: None,
    };
    let mut offset: usize = 12;
    if qdcount > 0 {
        match parse_questions(packet, qdcount) {
            Some(Ok((questions, new_offset))) => {
                offset = new_offset;
                response.question = Some(questions);
            },
            Some(Err(e)) => return Some(Err(e)),
            None => return None,
        }
    }
    match parse_section(packet, offset, ancount) {
        Some(Ok((answer, new_offset))) => {
            offset = new_offset;
            response.answer = answer;
        },
        Some(Err(e)) => return Some(Err(e)),
        None => return None,
    }
    match parse_section(packet, offset, nscount) {
        Some(Ok((authority, new_offset))) => {
            offset = new_offset;
            response.authority = authority;
        },
        Some(Err(e)) => return Some(Err(e)),
        None => return None,
    }
    match parse_section(packet, offset, arcount) {
        Some(Ok((additional, _))) => {
            response.additional = additional;
        },
        Some(Err(e)) => return Some(Err(e)),
        None => return None,
    }
    Some(Ok(response))
}
// ---------------------------------------------------------------------------
// Queries from JSON parameters

/// The parameters of a JSON query: the name, the record type (A by default),
/// the CD and DO flags, the content type, and an EDNS client subnet.
#[derive(Debug, Clone)]
pub struct DnsJsonQuery {
    pub name: String,
    pub qtype: Option<u16>,
    pub cd: Option<bool>,
    pub ct: Option<String>,
    pub do_: Option<bool>,
    pub edns_client_subnet: Option<String>,
}

/// A label in wire format: its length byte (the length modulo 256) and its
/// bytes; an empty label is left out.
pub open spec fn label_wire(l: Seq<u8>) -> Seq<u8> {
    if l.len() == 0 {
        seq![]
    } else {
        seq![(l.len() % 256) as u8] + l
    }
}

/// The labels of the name `b`, split at its dots, in wire format, from the
/// label that starts at `start`, scanning from `i`.
pub open spec fn labels_wire(b: Seq<u8>, start: int, i: int) -> Seq<u8>
    decreases b.len() - i,
{
    if i >= b.len() {
        label_wire(b.subrange(start, b.len() as int))
    } else if b[i] == 46 {
        label_wire(b.subrange(start, i)) + labels_wire(b, i + 1, i + 1)
    } else {
        labels_wire(b, start, i + 1)
    }
}

/// The parts of `s` between its dots, from the part that starts at `start`,
/// scanning from `i`.
pub open spec fn split_dots(s: Seq<char>, start: int, i: int) -> Seq<Seq<char>>
    decreases s.len() - i,
{
    if i >= s.len() {
        seq![s.subrange(start, s.len() as int)]
    } else if s[i] == '.' {
        seq![s.subrange(start, i)] + split_dots(s, i + 1, i + 1)
    } else {
        split_dots(s, start, i + 1)
    }
}

/// An octet of a dotted-quad address: one to three digits without a leading
/// zero, of value at most 255.
pub open spec fn octet_value(g: Seq<char>) -> Option<u8> {
    if 1 <= g.len() <= 3 && all_digits(g) && !(g.len() > 1 && g[0] == '0') && digits_value(g) <= 255 {
        Some(digits_value(g) as u8)
    } else {
        None
    }
}

/// `std::net::Ipv4Addr::from_str`: four octets separated by dots.
pub open spec fn parse_ipv4_spec(s: Seq<char>) -> Option<Seq<u8>> {
    let g = split_dots(s, 0, 0);
    if g.len() == 4 && octet_value(g[0]) is Some && octet_value(g[1]) is Some
        && octet_value(g[2]) is Some && octet_value(g[3]) is Some {
        Some(seq![octet_value(g[0])->Some_0, octet_value(g[1])->Some_0, octet_value(g[2])->Some_0, octet_value(g[3])->Some_0])
    } else {
        None
    }
}

/// Whether a query gets an OPT record: when DO is set or a client subnet is given.
pub open spec fn query_has_edns(q: DnsJsonQuery) -> bool {
    q.do_ == Some(true) || q.edns_client_subnet is Some
}

/// The client-subnet option: code 8, length 7, family IPv4, source prefix 24,
/// scope prefix 0, then the first three octets; nothing when the subnet is not
/// an IPv4 address.
pub open spec fn subnet_option(q: DnsJsonQuery) -> Seq<u8> {
    match q.edns_client_subnet {
        Some(s) => match parse_ipv4_spec(s@) {
            Some(a) => seq![0u8, 8u8, 0u8, 7u8, 0u8, 1u8, 24u8, 0u8, a[0], a[1], a[2]],
            None => seq![],
        },
        None => seq![],
    }
}

/// The query built from `q` with transaction ID bytes `id0`, `id1`: a header
/// with RD set (and CD when asked for), one question, and ARCOUNT 1 when an
/// OPT record follows; the question is the name's labels, the root label,
/// the type and class IN; the OPT record announces 4096 bytes, carries the DO
/// flag when asked for, and holds the client-subnet option.
pub open spec fn query_packet(q: DnsJsonQuery, id0: u8, id1: u8) -> Seq<u8> {
    query_header(q, id0, id1) + query_question(q) + query_opt(q)
}

/// The header of the query built from `q`.
pub open spec fn query_header(q: DnsJsonQuery, id0: u8, id1: u8) -> Seq<u8> {
    seq![
        id0,
        id1,
        0x01u8,
        if q.cd == Some(true) { 0x10u8 } else { 0u8 },
        0u8,
        1u8,
        0u8,
        0u8,
        0u8,
        0u8,
        0u8,
        if query_has_edns(q) { 1u8 } else { 0u8 },
    ]
}

/// The question of the query built from `q`.
pub open spec fn query_question(q: DnsJsonQuery) -> Seq<u8> {
    let qtype = match q.qtype {
        Some(t) => t,
        None => TYPE_A,
    };
    labels_wire(encode_utf8(q.name@), 0, 0) + seq![0u8] + be16_bytes(qtype) + seq![0u8, 1u8]
}

/// The OPT record of the query built from `q`, if it has one.
pub open spec fn query_opt(q: DnsJsonQuery) -> Seq<u8> {
    if query_has_edns(q) {
        let data = subnet_option(q);
        seq![
            0u8,
            0u8,
            41u8,
            0x10u8,
            0u8,
            0u8,
            0u8,
            if q.do_ == Some(true) { 0x80u8 } else { 0u8 },
            0u8,
            0u8,
            data.len() as u8,
        ] + data
    } else {
        seq![]
    }
}

/// `rand::random::<u8>()`: a byte from the thread's random generator; nothing
/// is promised of its value.
#[verifier::external_body]
fn random_byte() -> u8 {
    rand::random::<u8>()
}

/// Appends the bytes `b[start..end]`.
fn push_bytes(packet: &mut Vec<u8>, b: &[u8], start: usize, end: usize)
    requires
        start <= end <= b@.len(),
    ensures
        final(packet)@ == old(packet)@ + b@.subrange(start as int, end as int),
{
    let mut i = start;
    while i < end
        invariant
            start <= i <= end <= b@.len(),
            packet@ == old(packet)@ + b@.subrange(start as int, i as int),
        decreases end - i,
    {
        packet.push(b[i]);
        proof {
            assert(b@.subrange(start as int, i + 1) =~= b@.subrange(start as int, i as int).push(b@[i as int]));
        }
        i = i + 1;
    }
}

/// Appends the label `b[start..end]` in wire format.
fn push_label(packet: &mut Vec<u8>, b: &[u8], start: usize, end: usize)
    requires
        start <= end <= b@.len(),
    ensures
        final(packet)@ == old(packet)@ + label_wire(b@.subrange(start as int, end as int)),
{
    if start < end {
        let len = end - start;
        let byte = #[verifier::truncate] (len as u8);
        assert((#[verifier::truncate] (len as u8)) == (len % 256) as u8) by (bit_vector);
        packet.push(byte);
        push_bytes(packet, b, start, end);
        proof {
            assert(final(packet)@ =~= old(packet)@ + label_wire(b@.subrange(start as int, end as int)));
        }
    } else {
        assert(b@.subrange(start as int, end as int).len() == 0);
        assert(final(packet)@ =~= old(packet)@ + label_wire(b@.subrange(start as int, end as int)));
    }
}

/// Appends the labels of the name `b`, split at its dots, in wire format.
fn push_name_labels(packet: &mut Vec<u8>, b: &[u8])
    ensures
        final(packet)@ == old(packet)@ + labels_wire(b@, 0, 0),
{
    let n = b.len();
    let mut start: usize = 0;
    let mut i: usize = 0;
    while i < n
        invariant
            start <= i <= n,
            n == b@.len(),
            old(packet)@ + labels_wire(b@, 0, 0) == packet@ + labels_wire(b@, start as int, i as int),
        decreases n - i,
    {
        if b[i] == 46 {
            let ghost before = packet@;
            push_label(packet, b, start, i);
            proof {
                assert(before + labels_wire(b@, start as int, i as int) =~= packet@ + labels_wire(b@, i + 1, i + 1));
            }
            start = i + 1;
        }
        i = i + 1;
    }
    let ghost before = packet@;
    push_label(packet, b, start, n);
    proof {
        assert(before + labels_wire(b@, start as int, n as int) =~= packet@);
    }
}

/// Every split has at least one part.
pub proof fn lemma_split_dots_nonempty(s: Seq<char>, start: int, i: int)
    ensures
        split_dots(s, start, i).len() >= 1,
    decreases s.len() - i,
{
    if i < s.len() {
        if s[i] == '.' {
            lemma_split_dots_nonempty(s, i + 1, i + 1);
        } else {
            lemma_split_dots_nonempty(s, start, i + 1);
        }
    }
}

/// The octet written by the characters `v[start..end]`.
fn octet_of(v: &Vec<char>, start: usize, end: usize) -> (r: Option<u8>)
    requires
        start <= end <= v@.len(),
    ensures
        r == octet_value(v@.subrange(start as int, end as int)),
{
    let ghost g = v@.subrange(start as int, end as int);
    let len = end - start;
    if len < 1 || len > 3 {
        return None;
    }
    let mut value: u32 = 0;
    let mut i = start;
    while i < end
        invariant
            start <= i <= end <= v@.len(),
            end - start <= 3,
            g == v@.subrange(start as int, end as int),
            all_digits(v@.subrange(start as int, i as int)),
            value == digits_value(v@.subrange(start as int, i as int)),
            i - start == 0 ==> value == 0,
            i - start == 1 ==> value < 10,
            i - start == 2 ==> value < 100,
            i - start == 3 ==> value < 1000,
        decreases end - i,
    {
        let c = v[i];
        if !('0' <= c && c <= '9') {
            assert(!is_digit(g[i - start]));
            return None;
        }
        proof {
            let pre = v@.subrange(start as int, i as int);
            let post = v@.subrange(start as int, i + 1);
            assert(post.drop_last() =~= pre);
            assert forall|j: int| 0 <= j < post.len() implies is_digit(#[trigger] post[j]) by {
                if j < pre.len() {
                    assert(post[j] == pre[j]);
                }
            }
        }
        value = value * 10 + (c as u32 - 48);
        i = i + 1;
    }
    assert(g =~= v@.subrange(start as int, i as int));
    if len > 1 && v[start] == '0' {
        return None;
    }
    if value > 255 {
        return None;
    }
    Some(value as u8)
}

/// The address `std::net::Ipv4Addr::from_str` reads from the characters `v`.
#[verifier::loop_isolation(false)]
pub fn parse_ipv4(v: &Vec<char>) -> (r: Option<Vec<u8>>)
    ensures
        match r {
            Some(a) => parse_ipv4_spec(v@) == Some(a@),
            None => parse_ipv4_spec(v@) is None,
        },
{
    let ghost s = v@;
    let n = v.len();
    let mut octets: Vec<u8> = Vec::new();
    let ghost mut groups: Seq<Seq<char>> = seq![];
    let mut start: usize = 0;
    let mut i: usize = 0;
    while i < n
        invariant
            start <= i <= n,
            n == s.len(),
            groups.len() == octets@.len(),
            groups.len() <= 3,
            split_dots(s, 0, 0) == groups + split_dots(s, start as int, i as int),
            forall|k: int| 0 <= k < groups.len() ==> octet_value(#[trigger] groups[k]) == Some(octets@[k]),
        decreases n - i,
    {
        if v[i] == '.' {
            proof {
                lemma_split_dots_nonempty(s, i + 1, i + 1);
            }
            let g = octet_of(v, start, i);
            let ghost grp = s.subrange(start as int, i as int);
            let ghost rest = split_dots(s, i + 1, i + 1);
            assert(split_dots(s, 0, 0) =~= groups + (seq![grp] + rest));
            match g {
                None => {
                    assert(split_dots(s, 0, 0)[groups.len() as int] == grp);
                    return None;
                },
                Some(o) => {
                    if octets.len() == 3 {
                        assert(split_dots(s, 0, 0).len() > 4);
                        return None;
                    }
                    octets.push(o);
                    proof {
                        groups = groups.push(grp);
                        assert(split_dots(s, 0, 0) =~= groups + rest);
                    }
                },
            }
            start = i + 1;
        }
        i = i + 1;
    }
    let last = octet_of(v, start, n);
    let ghost grp = s.subrange(start as int, n as int);
    assert(split_dots(s, 0, 0) =~= groups.push(grp));
    match last {
        None => {
            assert(split_dots(s, 0, 0)[groups.len() as int] == grp);
            None
        },
        Some(o) => {
            if octets.len() != 3 {
                return None;
            }
            octets.push(o);
            proof {
                let g = split_dots(s, 0, 0);
                assert(g[0] == groups[0]);
                assert(g[1] == groups[1]);
                assert(g[2] == groups[2]);
                assert(octets@ =~= parse_ipv4_spec(s)->Some_0);
            }
            Some(octets)
        },
    }
}

fn push_question(packet: &mut Vec<u8>, query: &DnsJsonQuery)
    ensures
        final(packet)@ == old(packet)@ + query_question(*query),
{
    let qtype = match query.qtype {
        Some(t) => t,
        None => TYPE_A,
    };
    let name_bytes = query.name.as_str().as_bytes();
    push_name_labels(packet, name_bytes);
    packet.push(0);
    packet.push((qtype / 256) as u8);
    packet.push((qtype % 256) as u8);
    packet.push(0);
    packet.push(1);
    proof {
        assert(final(packet)@ =~= old(packet)@ + query_question(*query));
    }
}

fn subnet_data(query: &DnsJsonQuery) -> (r: Vec<u8>)
    ensures
        r@ == subnet_option(*query),
{
    let mut opt_data: Vec<u8> = Vec::new();
    match &query.edns_client_subnet {
        Some(subnet) => {
            let chars = chars_of(subnet.as_str());
            match parse_ipv4(&chars) {
                Some(addr) => {
                    opt_data = vec![0u8, 8u8, 0u8, 7u8, 0u8, 1u8, 24u8, 0u8, addr[0], addr[1], addr[2]];
                },
                None => {},
            }
        },
        None => {},
    }
    assert(opt_data@ =~= subnet_option(*query));
    opt_data
}

fn push_opt(packet: &mut Vec<u8>, query: &DnsJsonQuery, do_flag: bool)
    requires
        query_has_edns(*query),
        do_flag == (query.do_ == Some(true)),
    ensures
        final(packet)@ == old(packet)@ + query_opt(*query),
{
    packet.push(0);
    packet.push(0);
    packet.push(41);
    packet.push(0x10);
    packet.push(0x00);
    packet.push(0);
    packet.push(0);
    let flags: u16 = if do_flag { 0x8000 } else { 0 };
    packet.push((flags / 256) as u8);
    packet.push((flags % 256) as u8);
    let rdlength_pos = packet.len();
    packet.push(0);
    packet.push(0);
    let mut opt_data = subnet_data(query);
    write_u16_at(packet, rdlength_pos, opt_data.len() as u16);
    packet.append(&mut opt_data);
    proof {
        assert(final(packet)@ =~= old(packet)@ + query_opt(*query));
    }
}

/// The query built from `query`, with transaction ID bytes `id0` and `id1`.
pub fn build_dns_query_with_id(query: &DnsJsonQuery, id0: u8, id1: u8) -> (r: Vec<u8>)
    ensures
        r@ == query_packet(*query, id0, id1),
{
    let mut packet: Vec<u8> = vec![0u8; 12];
    packet.set(0, id0);
    packet.set(1, id1);
    packet.set(2, 0x01);
    packet.set(3, 0x00);
    let cd = match query.cd {
        Some(b) => b,
        None => false,
    };
    if cd {
        packet.set(3, 0x10);
    }
    write_u16_at(&mut packet, 4, 1);
    let do_flag = match query.do_ {
        Some(b) => b,
        None => false,
    };
    let edns = do_flag || query.edns_client_subnet.is_some();
    if edns {
        write_u16_at(&mut packet, 10, 1);
    }
    assert(packet@ =~= query_header(*query, id0, id1));
    push_question(&mut packet, query);
    if edns {
        push_opt(&mut packet, query, do_flag);
    }
    assert(packet@ =~= query_packet(*query, id0, id1));
    packet
}

/// Builds a DNS query packet from JSON parameters, with a random transaction ID.
pub fn build_dns_query(query: &DnsJsonQuery) -> (r: Result<Vec<u8>, DnsError>)
    ensures
        r matches Ok(v) && exists|a: u8, b: u8| v@ == query_packet(*query, a, b),
{
    let id0 = random_byte();
    let id1 = random_byte();
    Ok(build_dns_query_with_id(query, id0, id1))
}

/// The JSON view agrees with the header accessors: its status is the
/// response code and its TC flag tells whether the message is truncated.
pub proof fn law_json_header_agrees(p: Seq<u8>)
    requires
        parse_dns_to_json_spec(p) matches Some(Ok(_)),
    ensures
        parse_dns_to_json_spec(p) matches Some(Ok(v)) && v.status == spec_rcode(p) as u16
            && v.tc == spec_truncated(p),
{
    let b = p[2];
    assert((b & 0x02 != 0) == ((b / 2) % 2 == 1)) by (bit_vector);
}

/// Each section of the JSON view comes from its own part of the message, in
/// wire order: after the QDCOUNT questions from offset 12, the ANCOUNT records
/// are the answers, the NSCOUNT records after them the authority section, and
/// the ARCOUNT records after those the additional section; each list holds
/// the IN, non-OPT records read there, and is absent when there are none.
pub proof fn law_json_sections(p: Seq<u8>)
    requires
        parse_dns_to_json_spec(p) matches Some(Ok(_)),
    ensures
        ({
            &&& parse_dns_to_json_spec(p) matches Some(Ok(v))
            &&& questions_parse(p, 12, be16(p, 4) as nat) matches Some(Ok((qs, o1)))
            &&& v.question == (if be16(p, 4) > 0 { Some(qs) } else { None::<Seq<QuestionView>> })
            &&& rrs_parse(p, o1, be16(p, 6) as nat) matches Some(Ok((ans, o2)))
            &&& v.answer == nonempty(ans)
            &&& rrs_parse(p, o2, be16(p, 8) as nat) matches Some(Ok((auth, o3)))
            &&& v.authority == nonempty(auth)
            &&& rrs_parse(p, o3, be16(p, 10) as nat) matches Some(Ok((add, _)))
            &&& v.additional == nonempty(add)
        }),
{
}

/// The OPT record of a built query announces 4096 bytes, has a zero extended
/// response code and version, and sets the DO flag (the high bit of its
/// eighth byte) exactly when the query asks for DNSSEC data, whatever the
/// client subnet; a query that needs no OPT record ends after its question.
pub proof fn law_built_query_opt_flags(q: DnsJsonQuery, id0: u8, id1: u8)
    ensures
        ({
            let b = query_packet(q, id0, id1);
            let o: int = 12 + query_question(q).len() as int;
            &&& query_has_edns(q) ==> {
                &&& b.len() >= o + 11
                &&& b[o] == 0 && b[o + 1] == 0 && b[o + 2] == 41
                &&& b[o + 3] == 0x10 && b[o + 4] == 0
                &&& b[o + 5] == 0 && b[o + 6] == 0
                &&& (b[o + 7] >= 0x80 <==> q.do_ == Some(true))
                &&& b[o + 7] % 0x80 == 0
                &&& b[o + 8] == 0
            }
            &&& !query_has_edns(q) ==> b.len() == o
        }),
{
    let h = query_header(q, id0, id1);
    let qq = query_question(q);
    let opt = query_opt(q);
    let b = query_packet(q, id0, id1);
    let o: int = 12 + qq.len() as int;
    assert(h.len() == 12);
    assert(b == h + qq + opt);
    if query_has_edns(q) {
        assert(opt.len() >= 11);
        assert forall|i: int| 0 <= i < 11 implies b[o + i] == opt[i] by {
            assert(b[o + i] == (h + qq + opt)[o + i]);
        }
        assert(b[o + 7] == opt[7]);
    }
}

// ---------------------------------------------------------------------------
// Reading back a built query

/// The label `l` as a list: empty when the label is.
pub open spec fn keep_label(l: Seq<u8>) -> Seq<Seq<u8>> {
    if l.len() == 0 {
        seq![]
    } else {
        seq![l]
    }
}

/// The non-empty labels of the name `b`, split at its dots, from the label
/// that starts at `start`, scanning from `i`.
pub open spec fn byte_labels(b: Seq<u8>, start: int, i: int) -> Seq<Seq<u8>>
    decreases b.len() - i,
{
    if i >= b.len() {
        keep_label(b.subrange(start, b.len() as int))
    } else if b[i] == 46 {
        keep_label(b.subrange(start, i)) + byte_labels(b, i + 1, i + 1)
    } else {
        byte_labels(b, start, i + 1)
    }
}

/// Labels in wire format, one after the other.
pub open spec fn wire_of(ls: Seq<Seq<u8>>) -> Seq<u8>
    decreases ls.len(),
{
    if ls.len() == 0 {
        seq![]
    } else {
        seq![(ls[0].len() % 256) as u8] + ls[0] + wire_of(ls.drop_first())
    }
}

proof fn lemma_wire_concat(a: Seq<Seq<u8>>, b: Seq<Seq<u8>>)
    ensures
        wire_of(a + b) == wire_of(a) + wire_of(b),
    decreases a.len(),
{
    if a.len() == 0 {
        assert(a + b =~= b);
    } else {
        assert((a + b).drop_first() =~= a.drop_first() + b);
        lemma_wire_concat(a.drop_first(), b);
        assert(wire_of(a + b) =~= wire_of(a) + wire_of(b));
    }
}

proof fn lemma_labels_wire(b: Seq<u8>, start: int, i: int)
    requires
        0 <= start <= i <= b.len(),
    ensures
        labels_wire(b, start, i) == wire_of(byte_labels(b, start, i)),
        forall|k: int| 0 <= k < byte_labels(b, start, i).len() ==> #[trigger] byte_labels(b, start, i)[k].len() > 0,
    decreases b.len() - i,
{
    if i >= b.len() {
        let l = b.subrange(start, b.len() as int);
        if l.len() > 0 {
            assert(seq![l].drop_first() =~= Seq::<Seq<u8>>::empty());
            assert(wire_of(Seq::<Seq<u8>>::empty()) =~= Seq::<u8>::empty());
            assert(seq![l][0] == l);
            assert(wire_of(seq![l]) =~= label_wire(l));
        }
    } else if b[i] == 46 {
        let l = b.subrange(start, i);
        lemma_labels_wire(b, i + 1, i + 1);
        lemma_wire_concat(keep_label(l), byte_labels(b, i + 1, i + 1));
        if l.len() > 0 {
            assert(seq![l].drop_first() =~= Seq::<Seq<u8>>::empty());
            assert(wire_of(Seq::<Seq<u8>>::empty()) =~= Seq::<u8>::empty());
            assert(seq![l][0] == l);
            assert(wire_of(seq![l]) =~= label_wire(l));
        }
        let all = keep_label(l) + byte_labels(b, i + 1, i + 1);
        assert forall|k: int| 0 <= k < all.len() implies #[trigger] all[k].len() > 0 by {
            if k >= keep_label(l).len() {
                assert(all[k] == byte_labels(b, i + 1, i + 1)[k - keep_label(l).len()]);
            }
        }
    } else {
        lemma_labels_wire(b, start, i + 1);
    }
}

/// More fuel does not change the outcome of a walk that already ended.
pub proof fn lemma_walk_fuel(p: Seq<u8>, off: int, jumped: bool, jo: int, f1: nat, f2: nat)
    requires
        f1 <= f2,
        name_walk(p, off, jumped, jo, f1) is Some,
    ensures
        name_walk(p, off, jumped, jo, f2) == name_walk(p, off, jumped, jo, f1),
    decreases f1,
{
    if f1 > 0 && 0 <= off < p.len() {
        if p[off] >= 0xc0 {
            if off + 1 < p.len() {
                lemma_walk_fuel(
                    p,
                    (p[off] - 0xc0) * 256 + p[off + 1],
                    true,
                    if jumped { jo } else { off + 2 },
                    (f1 - 1) as nat,
                    (f2 - 1) as nat,
                );
            }
        } else if p[off] != 0 && off + 1 + p[off] <= p.len() {
            lemma_walk_fuel(p, off + 1 + p[off], jumped, jo, (f1 - 1) as nat, (f2 - 1) as nat);
        }
    }
}

/// A walk that ends with some fuel gives the name its parse.
pub proof fn lemma_name_parse_by_fuel(p: Seq<u8>, off: int, f: nat)
    requires
        name_walk(p, off, false, 0, f) is Some,
    ensures
        name_parse(p, off) == walk_text(seq![], name_walk(p, off, false, 0, f)),
{
    assert(walk_terminates(p, off));
    let g = choose|g: nat| #[trigger] name_walk(p, off, false, 0, g) is Some;
    if g <= f {
        lemma_walk_fuel(p, off, false, 0, g, f);
    } else {
        lemma_walk_fuel(p, off, false, 0, f, g);
    }
}

/// Labels shorter than 192 bytes, written in wire format at `off` and ended
/// by a zero byte, are walked back as they were.
proof fn lemma_walk_labels(p: Seq<u8>, off: int, ls: Seq<Seq<u8>>)
    requires
        forall|k: int| 0 <= k < ls.len() ==> 0 < #[trigger] ls[k].len() < 192,
        0 <= off,
        off + wire_of(ls).len() < p.len(),
        forall|k: int| 0 <= k < wire_of(ls).len() ==> p[off + k] == #[trigger] wire_of(ls)[k],
        p[off + wire_of(ls).len()] == 0,
    ensures
        name_walk(p, off, false, 0, (ls.len() + 1) as nat) == Some(Ok::<(Seq<Seq<u8>>, int), DnsError>((ls, off + wire_of(ls).len() + 1))),
    decreases ls.len(),
{
    if ls.len() == 0 {
        assert(ls =~= Seq::<Seq<u8>>::empty());
    } else {
        let l = ls[0];
        let tail = ls.drop_first();
        let w = wire_of(ls);
        let wt = wire_of(tail);
        assert(w =~= seq![(l.len() % 256) as u8] + l + wt);
        assert(p[off] == w[0]);
        assert(p[off] == l.len());
        let next = off + 1 + l.len();
        assert forall|k: int| 0 <= k < wt.len() implies p[next + k] == #[trigger] wt[k] by {
            assert(w[1 + l.len() + k] == wt[k]);
        }
        assert(p.subrange(off + 1, next) =~= l) by {
            assert forall|k: int| 0 <= k < l.len() implies p.subrange(off + 1, next)[k] == l[k] by {
                assert(w[1 + k] == l[k]);
            }
        }
        lemma_walk_labels(p, next, tail);
        assert(seq![l] + tail =~= ls);
    }
}

/// The JSON view of a query built from `q`: status 0, RD set, CD as asked,
/// one question holding the non-empty labels of the name joined by dots, and
/// the type.
pub open spec fn built_query_view(q: DnsJsonQuery) -> ResponseView {
    ResponseView {
        status: 0,
        tc: false,
        rd: true,
        ra: false,
        ad: false,
        cd: q.cd == Some(true),
        question: Some(
            seq![
                QuestionView {
                    name: join_names(seq![], name_labels(q.name@, seq![])),
                    qtype: match q.qtype {
                        Some(t) => t,
                        None => TYPE_A,
                    },
                },
            ],
        ),
        answer: None,
        authority: None,
        additional: None,
        comment: None,
    }
}

/// The header of a built query, as the JSON view reads it.
proof fn lemma_built_header(q: DnsJsonQuery, id0: u8, id1: u8)
    ensures
        ({
            let p = query_packet(q, id0, id1);
            &&& p.len() >= 12
            &&& be16(p, 4) == 1
            &&& be16(p, 6) == 0
            &&& be16(p, 8) == 0
            &&& be16(p, 10) == (if query_has_edns(q) { 1int } else { 0int })
            &&& p[2] == 1u8
            &&& p[3] == (if q.cd == Some(true) { 0x10u8 } else { 0u8 })
        }),
{
    let p = query_packet(q, id0, id1);
    let h = query_header(q, id0, id1);
    assert(p =~= h + (query_question(q) + query_opt(q)));
    assert(forall|k: int| 0 <= k < 12 ==> p[k] == h[k]);
}

/// The question of a built query reads back as its name and type.
proof fn lemma_built_question(q: DnsJsonQuery, id0: u8, id1: u8)
    requires
        forall|k: int|
            0 <= k < byte_labels(encode_utf8(q.name@), 0, 0).len() ==> #[trigger] byte_labels(
                encode_utf8(q.name@),
                0,
                0,
            )[k].len() < 192,
    ensures
        questions_parse(query_packet(q, id0, id1), 12, 1) == Some(
            Ok::<(Seq<QuestionView>, int), DnsError>(
                (built_query_view(q).question->Some_0, 12 + query_question(q).len() as int),
            ),
        ),
{
    let b = encode_utf8(q.name@);
    let ls = byte_labels(b, 0, 0);
    lemma_labels_wire(b, 0, 0);
    lemma_read_back_name(q.name@);
    let h = query_header(q, id0, id1);
    let qq = query_question(q);
    let o = query_opt(q);
    let p = query_packet(q, id0, id1);
    let w = wire_of(ls);
    let wl: int = w.len() as int;
    let qtype = match q.qtype {
        Some(t) => t,
        None => TYPE_A,
    };
    assert(qq =~= w + seq![0u8] + be16_bytes(qtype) + seq![0u8, 1u8]);
    assert(p =~= h + qq + o);
    assert(forall|k: int| 0 <= k < qq.len() ==> p[12 + k] == qq[k]);
    assert forall|k: int| 0 <= k < w.len() implies p[12 + k] == #[trigger] w[k] by {
        assert(p[12 + k] == qq[k]);
    }
    assert(p[12 + wl] == qq[wl]);
    lemma_walk_labels(p, 12, ls);
    lemma_name_parse_by_fuel(p, 12, (ls.len() + 1) as nat);
    let o1: int = 12 + wl + 1;
    assert(p[o1] == qq[wl + 1]);
    assert(p[o1 + 1] == qq[wl + 2]);
    assert(be16(p, o1) == qtype);
    assert(questions_parse(p, 12, 0) == Some(Ok::<(Seq<QuestionView>, int), DnsError>((seq![], 12))));
    assert(seq![].push(built_query_view(q).question->Some_0[0]) =~= built_query_view(q).question->Some_0);
}

/// The additional section of a built query holds at most its OPT record,
/// which the JSON view skips.
proof fn lemma_built_additional(q: DnsJsonQuery, id0: u8, id1: u8)
    ensures
        ({
            let p = query_packet(q, id0, id1);
            let oq: int = 12 + query_question(q).len() as int;
            rrs_parse(p, oq, (if query_has_edns(q) { 1nat } else { 0nat })) == Some(
                Ok::<(Seq<AnswerView>, int), DnsError>((seq![], if query_has_edns(q) { p.len() as int } else { oq })),
            )
        }),
{
    let p = query_packet(q, id0, id1);
    let h = query_header(q, id0, id1);
    let qq = query_question(q);
    let o = query_opt(q);
    let oq: int = 12 + qq.len() as int;
    assert(p =~= h + qq + o);
    if query_has_edns(q) {
        let data = subnet_option(q);
        assert(forall|k: int| 0 <= k < o.len() ==> p[oq + k] == o[k]);
        assert(p[oq] == 0);
        let empty: Seq<Seq<u8>> = seq![];
        assert(wire_of(empty) =~= Seq::<u8>::empty());
        lemma_walk_labels(p, oq, empty);
        lemma_name_parse_by_fuel(p, oq, 1);
        assert(p[oq + 1] == o[1]);
        assert(p[oq + 2] == o[2]);
        assert(be16(p, oq + 1) == 41);
        assert(p[oq + 9] == o[9]);
        assert(p[oq + 10] == o[10]);
        assert(be16(p, oq + 9) == data.len());
        assert(rrs_parse(p, oq, 0) == Some(Ok::<(Seq<AnswerView>, int), DnsError>((seq![], oq))));
    }
}

/// A query built from JSON parameters reads back, in the JSON view, as its
/// name (its non-empty labels joined by dots) and type, with RD set and CD as
/// asked. Left out: names with a label of 192 bytes or more, whose length
/// byte reads as a compression pointer or is cut to its low byte.
pub proof fn law_built_query_reads_back(q: DnsJsonQuery, id0: u8, id1: u8)
    requires
        forall|k: int|
            0 <= k < name_labels(q.name@, seq![]).len() ==> #[trigger] encode_utf8(
                name_labels(q.name@, seq![])[k],
            ).len() < 192,
    ensures
        parse_dns_to_json_spec(query_packet(q, id0, id1)) == Some(Ok::<ResponseView, DnsError>(built_query_view(q))),
{
    lemma_read_back_name(q.name@);
    let ls = name_labels(q.name@, seq![]);
    let bls = byte_labels(encode_utf8(q.name@), 0, 0);
    assert forall|k: int| 0 <= k < bls.len() implies #[trigger] bls[k].len() < 192 by {
        assert(bls[k] == encode_utf8(ls[k]));
    }
    let p = query_packet(q, id0, id1);
    let oq: int = 12 + query_question(q).len() as int;
    lemma_built_header(q, id0, id1);
    lemma_built_question(q, id0, id1);
    lemma_built_additional(q, id0, id1);
    assert(rrs_parse(p, oq, 0) == Some(Ok::<(Seq<AnswerView>, int), DnsError>((seq![], oq))));
    let b2 = p[2];
    let b3 = p[3];
    assert(b2 == 1u8 ==> (b2 & 0x02 == 0 && b2 & 0x01 != 0)) by (bit_vector);
    assert((b3 == 0x10u8 || b3 == 0u8) ==> (b3 & 0x80 == 0 && b3 & 0x20 == 0 && (b3 & 0x10 != 0) == (b3 == 0x10u8)))
        by (bit_vector);
}
// ---------------------------------------------------------------------------
// Skipping a name and reading it end at the same place

/// Once a walk has followed a pointer, it ends two bytes after that first pointer.
proof fn lemma_walk_jumped_end(p: Seq<u8>, off: int, jo: int, f: nat)
    ensures
        name_walk(p, off, true, jo, f) matches Some(Ok((_, e))) ==> e == jo,
    decreases f,
{
    if f > 0 && 0 <= off < p.len() {
        if p[off] >= 0xc0 {
            if off + 1 < p.len() {
                lemma_walk_jumped_end(p, (p[off] - 0xc0) * 256 + p[off + 1], jo, (f - 1) as nat);
            }
        } else if p[off] != 0 && off + 1 + p[off] <= p.len() {
            lemma_walk_jumped_end(p, off + 1 + p[off], jo, (f - 1) as nat);
        }
    }
}

/// Where skipping a name succeeds, reading it ends at the same offset.
proof fn lemma_skip_walk_agree(p: Seq<u8>, off: int, qlen: int, f: nat)
    requires
        name_end_from(p, off, qlen) is Ok,
    ensures
        name_walk(p, off, false, 0, f) matches Some(Ok((_, e))) ==> name_end_from(p, off, qlen) == Ok::<int, DnsError>(e),
    decreases f,
{
    if f > 0 && 0 <= off < p.len() {
        if p[off] >= 0xc0 {
            if off + 1 < p.len() {
                lemma_walk_jumped_end(p, (p[off] - 0xc0) * 256 + p[off + 1], off + 2, (f - 1) as nat);
            }
        } else if p[off] != 0 && off + 1 + p[off] <= p.len() {
            lemma_skip_walk_agree(p, off + p[off] + 1, qlen + p[off] + 1, (f - 1) as nat);
        }
    }
}

/// Skipping a name and reading it agree on where it ends, when both succeed:
/// just past its zero label or its first compression pointer.
pub proof fn law_skip_name_parse_name_agree(p: Seq<u8>, off: int)
    requires
        skip_name_spec(p, off) is Ok,
        name_parse(p, off) matches Some(Ok(_)),
    ensures
        name_parse(p, off) matches Some(Ok((_, e))) && skip_name_spec(p, off) == Ok::<int, DnsError>(e),
{
    let f = choose|f: nat| #[trigger] name_walk(p, off, false, 0, f) is Some;
    lemma_skip_walk_agree(p, off, 0, f);
}

// ---------------------------------------------------------------------------
// Whether name walks end

/// Where the walk of a name goes after `off`: the next offset, or none where
/// the walk stops at `off` (at the end of the name or on an error).
pub open spec fn walk_next(p: Seq<u8>, off: int) -> Option<int> {
    if off < 0 || off >= p.len() {
        None
    } else if p[off] >= 0xc0 {
        if off + 1 < p.len() {
            Some((p[off] - 0xc0) * 256 + p[off + 1])
        } else {
            None
        }
    } else if p[off] == 0 || !(off + 1 + p[off] <= p.len()) {
        None
    } else {
        Some(off + 1 + p[off])
    }
}

/// Whether the walk from `off` stops within `f` steps.
pub open spec fn ends_within(p: Seq<u8>, off: int, f: nat) -> bool
    decreases f,
{
    f > 0 && match walk_next(p, off) {
        None => true,
        Some(n) => ends_within(p, n, (f - 1) as nat),
    }
}

/// A walk has an outcome within `f` steps exactly when it stops within them.
proof fn lemma_walk_some_iff(p: Seq<u8>, off: int, jumped: bool, jo: int, f: nat)
    ensures
        name_walk(p, off, jumped, jo, f) is Some <==> ends_within(p, off, f),
    decreases f,
{
    if f > 0 && 0 <= off < p.len() {
        if p[off] >= 0xc0 {
            if off + 1 < p.len() {
                lemma_walk_some_iff(
                    p,
                    (p[off] - 0xc0) * 256 + p[off + 1],
                    true,
                    if jumped { jo } else { off + 2 },
                    (f - 1) as nat,
                );
            }
        } else if p[off] != 0 && off + 1 + p[off] <= p.len() {
            lemma_walk_some_iff(p, off + 1 + p[off], jumped, jo, (f - 1) as nat);
        }
    }
}

/// Whether `path` is a stretch of a walk: each of its offsets but the last
/// goes on to the next one.
pub open spec fn is_walk_path(p: Seq<u8>, path: Seq<int>) -> bool {
    forall|k: int| 0 <= k < path.len() - 1 ==> #[trigger] walk_next(p, path[k]) == Some(path[k + 1])
}

/// Along a stretch of a walk, stopping within `f` steps from its start is
/// stopping within `f - k` steps from its `k`-th offset.
proof fn lemma_path_ends(p: Seq<u8>, path: Seq<int>, k: int, f: nat)
    requires
        is_walk_path(p, path),
        0 <= k < path.len(),
    ensures
        ends_within(p, path[0], f) == (f > k && ends_within(p, path[k], (f - k) as nat)),
    decreases k,
{
    if k > 0 {
        lemma_path_ends(p, path, k - 1, f);
        assert(walk_next(p, path[k - 1]) == Some(path[k]));
        if f > k {
            assert(ends_within(p, path[k - 1], (f - (k - 1)) as nat) == ends_within(p, path[k], (f - k) as nat));
        } else if f == k {
            assert(ends_within(p, path[k - 1], 1) == ends_within(p, path[k], 0));
        }
    }
}

/// A walk that comes back to an offset it left never stops.
proof fn lemma_cycle_never_ends(p: Seq<u8>, cycle: Seq<int>, f: nat)
    requires
        is_walk_path(p, cycle),
        cycle.len() >= 2,
        cycle.last() == cycle[0],
    ensures
        !ends_within(p, cycle[0], f),
    decreases f,
{
    let m = cycle.len() - 1;
    lemma_path_ends(p, cycle, m, f);
    if f > m {
        lemma_cycle_never_ends(p, cycle, (f - m) as nat);
    }
}

/// A sequence of distinct offsets below `n` has at most `n` of them.
proof fn lemma_distinct_offsets_bound(path: Seq<int>, n: int)
    requires
        path.no_duplicates(),
        0 <= n,
        forall|k: int| 0 <= k < path.len() ==> 0 <= #[trigger] path[k] < n,
    ensures
        path.len() <= n,
{
    path.unique_seq_to_set();
    vstd::set_lib::lemma_int_range(0, n);
    assert(path.to_set().subset_of(vstd::set_lib::set_int_range(0, n)));
    vstd::set_lib::lemma_len_subset(path.to_set(), vstd::set_lib::set_int_range(0, n));
}

/// Whether the walk of the name at `offset` ends: it is followed, offset by
/// offset, until it stops or comes back to an offset it has left.
pub fn name_walk_ends(packet: &[u8], offset: usize) -> (b: bool)
    ensures
        b == walk_terminates(packet@, offset as int),
{
    let ghost p = packet@;
    let n = packet.len();
    let mut visited: Vec<bool> = vec![false; n];
    let ghost mut path: Seq<int> = seq![];
    let mut pos = offset;
    loop
        invariant
            p == packet@,
            n == p.len(),
            visited@.len() == n,
            is_walk_path(p, path.push(pos as int)),
            path.push(pos as int)[0] == offset,
            path.no_duplicates(),
            path.len() <= n,
            forall|k: int| 0 <= k < path.len() ==> 0 <= #[trigger] path[k] < n,
            forall|x: int| 0 <= x < n ==> (visited@[x] <==> path.contains(x)),
        decreases n - path.len(),
    {
        let ghost full = path.push(pos as int);
        if pos >= n {
            proof {
                lemma_path_ends(p, full, path.len() as int, (path.len() + 1) as nat);
                lemma_walk_some_iff(p, offset as int, false, 0, (path.len() + 1) as nat);
            }
            return true;
        }
        let len = packet[pos];
        let mut next: usize = 0;
        let mut stops = false;
        assert((len & 0xc0 == 0xc0) == (len >= 0xc0)) by (bit_vector);
        if len & 0xc0 == 0xc0 {
            if pos + 1 < n {
                let lo = packet[pos + 1];
                assert(len >= 0xc0 ==> (((len & 0x3f) as usize) << 8usize) | (lo as usize) == ((len - 0xc0) as usize) * 256 + lo as usize)
                    by (bit_vector);
                next = (((len & 0x3f) as usize) << 8) | (lo as usize);
            } else {
                stops = true;
            }
        } else if len == 0 || !(len as usize <= n - pos - 1) {
            stops = true;
        } else {
            next = pos + 1 + len as usize;
        }
        if stops {
            proof {
                assert(walk_next(p, pos as int) is None);
                lemma_path_ends(p, full, path.len() as int, (path.len() + 1) as nat);
                lemma_walk_some_iff(p, offset as int, false, 0, (path.len() + 1) as nat);
            }
            return true;
        }
        assert(walk_next(p, pos as int) == Some(next as int));
        if visited[pos] {
            proof {
                assert(path.contains(pos as int));
                let i = choose|i: int| 0 <= i < path.len() && path[i] == pos;
                assert(0 <= i < path.len() && path[i] == pos);
                assert forall|f: nat| !(#[trigger] name_walk(p, offset as int, false, 0, f) is Some) by {
                    let c = full.subrange(i, full.len() as int);
                    assert(is_walk_path(p, c)) by {
                        assert forall|k: int| 0 <= k < c.len() - 1 implies #[trigger] walk_next(p, c[k]) == Some(c[k + 1]) by {
                            assert(c[k] == full[i + k] && c[k + 1] == full[i + k + 1]);
                        }
                    }
                    assert(c[0] == path[i]);
                    assert(c.last() == pos);
                    lemma_cycle_never_ends(p, c, (f - i) as nat);
                    lemma_path_ends(p, full, i, f);
                    lemma_walk_some_iff(p, offset as int, false, 0, f);
                }
            }
            return false;
        }
        visited.set(pos, true);
        proof {
            let old_path = path;
            path = path.push(pos as int);
            assert(path.no_duplicates()) by {
                assert(!old_path.contains(pos as int));
            }
            lemma_distinct_offsets_bound(path, n as int);
            assert forall|x: int| 0 <= x < n implies (visited@[x] <==> path.contains(x)) by {
                if x == pos {
                    assert(path[path.len() - 1] == x);
                } else if old_path.contains(x) {
                    let j = choose|j: int| 0 <= j < old_path.len() && old_path[j] == x;
                    assert(path[j] == x);
                } else if path.contains(x) {
                    let j = choose|j: int| 0 <= j < path.len() && path[j] == x;
                    if j < old_path.len() {
                        assert(old_path[j] == x);
                    }
                }
            }
            let ext = path.push(next as int);
            assert(is_walk_path(p, ext)) by {
                assert forall|k: int| 0 <= k < ext.len() - 1 implies #[trigger] walk_next(p, ext[k]) == Some(ext[k + 1]) by {
                    if k < full.len() - 1 {
                        assert(ext[k] == full[k] && ext[k + 1] == full[k + 1]);
                    } else {
                        assert(ext[k] == pos);
                    }
                }
            }
            assert(ext[0] == offset);
        }
        pos = next;
    }
}

// ---------------------------------------------------------------------------
// The labels of a name, as text

/// The label `l` as a list: empty when the label is.
pub open spec fn keep_chars(l: Seq<char>) -> Seq<Seq<char>> {
    if l.len() == 0 {
        seq![]
    } else {
        seq![l]
    }
}

/// The non-empty labels of the name `s`, split at its dots, after the
/// characters `cur` of a label already begun.
pub open spec fn name_labels(s: Seq<char>, cur: Seq<char>) -> Seq<Seq<char>>
    decreases s.len(),
{
    if s.len() == 0 {
        keep_chars(cur)
    } else if s[0] == '.' {
        keep_chars(cur) + name_labels(s.drop_first(), seq![])
    } else {
        name_labels(s.drop_first(), cur.push(s[0]))
    }
}

/// The labels `ls` joined by dots after `acc`.
pub open spec fn join_names(acc: Seq<char>, ls: Seq<Seq<char>>) -> Seq<char>
    decreases ls.len(),
{
    if ls.len() == 0 {
        acc
    } else {
        join_names(join_text(acc, ls[0], '.'), ls.drop_first())
    }
}

/// The non-empty labels of the name bytes `b`, split at their dots, after the
/// bytes `cur` of a label already begun.
pub open spec fn byte_labels_from(b: Seq<u8>, cur: Seq<u8>) -> Seq<Seq<u8>>
    decreases b.len(),
{
    if b.len() == 0 {
        keep_label(cur)
    } else if b[0] == 46 {
        keep_label(cur) + byte_labels_from(b.drop_first(), seq![])
    } else {
        byte_labels_from(b.drop_first(), cur.push(b[0]))
    }
}

proof fn lemma_byte_labels_from(b: Seq<u8>, start: int, i: int)
    requires
        0 <= start <= i <= b.len(),
    ensures
        byte_labels(b, start, i) == byte_labels_from(b.subrange(i, b.len() as int), b.subrange(start, i)),
    decreases b.len() - i,
{
    let rest = b.subrange(i, b.len() as int);
    if i < b.len() {
        assert(rest.drop_first() =~= b.subrange(i + 1, b.len() as int));
        assert(rest[0] == b[i]);
        if b[i] == 46 {
            lemma_byte_labels_from(b, i + 1, i + 1);
            assert(b.subrange(i + 1, i + 1) =~= Seq::<u8>::empty());
        } else {
            lemma_byte_labels_from(b, start, i + 1);
            assert(b.subrange(start, i).push(b[i]) =~= b.subrange(start, i + 1));
        }
    }
}

proof fn lemma_byte_labels_skip(e: Seq<u8>, rest: Seq<u8>, cur: Seq<u8>)
    requires
        forall|k: int| 0 <= k < e.len() ==> e[k] != 46,
    ensures
        byte_labels_from(e + rest, cur) == byte_labels_from(rest, cur + e),
    decreases e.len(),
{
    if e.len() == 0 {
        assert(e + rest =~= rest);
        assert(cur + e =~= cur);
    } else {
        assert((e + rest)[0] == e[0]);
        assert((e + rest).drop_first() =~= e.drop_first() + rest);
        lemma_byte_labels_skip(e.drop_first(), rest, cur.push(e[0]));
        assert(cur.push(e[0]) + e.drop_first() =~= cur + e);
    }
}

proof fn lemma_encode_concat(a: Seq<char>, b: Seq<char>)
    ensures
        encode_utf8(a + b) == encode_utf8(a) + encode_utf8(b),
    decreases a.len(),
{
    if a.len() == 0 {
        assert(a + b =~= b);
        assert(encode_utf8(a) + encode_utf8(b) =~= encode_utf8(b));
    } else {
        assert((a + b)[0] == a[0]);
        assert((a + b).drop_first() =~= a.drop_first() + b);
        lemma_encode_concat(a.drop_first(), b);
        assert(encode_utf8(a + b) =~= encode_utf8(a) + encode_utf8(b));
    }
}

/// Only the dot encodes to a dot byte; no other character's encoding holds one.
proof fn lemma_scalar_dots(c: char)
    ensures
        c == '.' ==> encode_scalar(c as u32) == seq![46u8],
        c != '.' ==> forall|k: int| 0 <= k < encode_scalar(c as u32).len() ==> #[trigger] encode_scalar(c as u32)[k] != 46,
        encode_scalar(c as u32).len() > 0,
{
    let v = c as u32;
    assert(v <= 0x7f ==> ((v & 0x7f) as u8 == 46u8 <==> v == 46)) by (bit_vector);
    assert(forall|x: u32| (0xC0u8 | ((x >> 6) & 0x1F) as u8) != 46u8) by (bit_vector);
    assert(forall|x: u32| (0xE0u8 | ((x >> 12) & 0x0F) as u8) != 46u8) by (bit_vector);
    assert(forall|x: u32| (0xF0u8 | ((x >> 18) & 0x7) as u8) != 46u8) by (bit_vector);
    assert(forall|x: u32| (0x80u8 | (x & 0x3F) as u8) != 46u8) by (bit_vector);
    assert(forall|x: u32| (0x80u8 | ((x >> 6) & 0x3F) as u8) != 46u8) by (bit_vector);
    assert(forall|x: u32| (0x80u8 | ((x >> 12) & 0x3F) as u8) != 46u8) by (bit_vector);
    assert(('.' as u32) == 46);
    if c == '.' {
        assert(encode_scalar(v) =~= seq![46u8]);
    }
}

proof fn lemma_encode_empty(s: Seq<char>)
    ensures
        (encode_utf8(s).len() == 0) == (s.len() == 0),
{
    if s.len() > 0 {
        lemma_scalar_dots(s[0]);
    }
}

/// Splitting the UTF-8 bytes of a name at dot bytes gives the encodings of its labels.
proof fn lemma_labels_encode(s: Seq<char>, cur: Seq<char>)
    ensures
        byte_labels_from(encode_utf8(s), encode_utf8(cur)) == name_labels(s, cur).map_values(
            |l: Seq<char>| encode_utf8(l),
        ),
    decreases s.len(),
{
    lemma_encode_empty(cur);
    if s.len() == 0 {
        assert(keep_label(encode_utf8(cur)) =~= keep_chars(cur).map_values(|l: Seq<char>| encode_utf8(l)));
    } else {
        let c = s[0];
        let rest = s.drop_first();
        lemma_scalar_dots(c);
        assert(encode_utf8(s) == encode_scalar(c as u32) + encode_utf8(rest));
        if c == '.' {
            let e = encode_utf8(s);
            assert(e[0] == 46);
            assert(e.drop_first() =~= encode_utf8(rest));
            let empty: Seq<char> = seq![];
            assert(encode_utf8(empty) =~= Seq::<u8>::empty());
            lemma_labels_encode(rest, empty);
            assert(keep_label(encode_utf8(cur)) =~= keep_chars(cur).map_values(|l: Seq<char>| encode_utf8(l)));
            assert((keep_chars(cur) + name_labels(rest, empty)).map_values(|l: Seq<char>| encode_utf8(l))
                =~= keep_chars(cur).map_values(|l: Seq<char>| encode_utf8(l)) + name_labels(rest, empty).map_values(
                |l: Seq<char>| encode_utf8(l),
            ));
        } else {
            lemma_byte_labels_skip(encode_scalar(c as u32), encode_utf8(rest), encode_utf8(cur));
            lemma_encode_concat(cur, seq![c]);
            assert(encode_utf8(seq![c]) =~= encode_scalar(c as u32)) by {
                let one: Seq<char> = seq![c];
                assert(one[0] == c);
                assert(one.drop_first() =~= Seq::<char>::empty());
                assert(encode_utf8(one.drop_first()) =~= Seq::<u8>::empty());
                assert(encode_utf8(one) == encode_scalar(one[0] as u32) + encode_utf8(one.drop_first()));
            }
            assert(cur + seq![c] =~= cur.push(c));
            lemma_labels_encode(rest, cur.push(c));
        }
    }
}

/// Reading back the encodings of labels gives the labels joined by dots.
proof fn lemma_join_encoded(acc: Seq<char>, ls: Seq<Seq<char>>)
    ensures
        join_labels(acc, ls.map_values(|l: Seq<char>| encode_utf8(l))) == join_names(acc, ls),
    decreases ls.len(),
{
    if ls.len() > 0 {
        let m = ls.map_values(|l: Seq<char>| encode_utf8(l));
        encode_utf8_valid_utf8(ls[0]);
        encode_utf8_decode_utf8(ls[0]);
        assert(m.drop_first() =~= ls.drop_first().map_values(|l: Seq<char>| encode_utf8(l)));
        lemma_join_encoded(join_text(acc, ls[0], '.'), ls.drop_first());
    }
}

/// The read-back name of a built query is the name's non-empty labels joined by dots.
proof fn lemma_read_back_name(name: Seq<char>)
    ensures
        join_labels(seq![], byte_labels(encode_utf8(name), 0, 0)) == join_names(seq![], name_labels(name, seq![])),
        byte_labels(encode_utf8(name), 0, 0) == name_labels(name, seq![]).map_values(|l: Seq<char>| encode_utf8(l)),
{
    let b = encode_utf8(name);
    lemma_byte_labels_from(b, 0, 0);
    assert(b.subrange(0, b.len() as int) =~= b);
    let empty: Seq<char> = seq![];
    assert(encode_utf8(empty) =~= Seq::<u8>::empty());
    assert(b.subrange(0, 0) =~= encode_utf8(empty));
    lemma_labels_encode(name, empty);
    lemma_join_encoded(seq![], name_labels(name, empty));
}

} // verus!
