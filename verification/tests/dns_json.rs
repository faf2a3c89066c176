use byteorder::ByteOrder;
use libdoh::dns_json::{
    build_dns_query, build_dns_query_with_id, name_walk_ends, name_walks_end, parse_dns_to_json,
    ipv6_string, parse_dns_to_json_checked, parse_dns_type, parse_ipv4, parse_name, try_parse_name,
    DnsJsonQuery,
};
use libdoh::error::DnsError;

fn text(s: &str) -> String {
    s.to_string()
}

#[test]
fn test_parse_dns_type_numeric() {
    assert_eq!(parse_dns_type("1"), Some(1));
    assert_eq!(parse_dns_type("28"), Some(28));
    assert_eq!(parse_dns_type("255"), Some(255));
    assert_eq!(parse_dns_type("65535"), Some(65535));
    assert_eq!(parse_dns_type("99999"), None);
}

#[test]
fn test_parse_dns_type_string() {
    assert_eq!(parse_dns_type("A"), Some(1));
    assert_eq!(parse_dns_type("AAAA"), Some(28));
    assert_eq!(parse_dns_type("MX"), Some(15));
    assert_eq!(parse_dns_type("TXT"), Some(16));
    assert_eq!(parse_dns_type("NS"), Some(2));
    assert_eq!(parse_dns_type("CNAME"), Some(5));
    assert_eq!(parse_dns_type("SOA"), Some(6));
    assert_eq!(parse_dns_type("PTR"), Some(12));
    assert_eq!(parse_dns_type("SRV"), Some(33));
    assert_eq!(parse_dns_type("CAA"), Some(257));
    assert_eq!(parse_dns_type("ANY"), Some(255));
}

#[test]
fn test_parse_dns_type_case_insensitive() {
    assert_eq!(parse_dns_type("aaaa"), Some(28));
    assert_eq!(parse_dns_type("Aaaa"), Some(28));
    assert_eq!(parse_dns_type("any"), Some(255));
    assert_eq!(parse_dns_type("mx"), Some(15));
}

#[test]
fn parse_dns_type_lower_case_agrees() {
    for s in ["A", "AAAA", "MX", "Txt", "cname", "Any", "+28", "CAA", "NOTATYPE"] {
        assert_eq!(parse_dns_type(&s.to_lowercase()), parse_dns_type(s), "{}", s);
    }
}

#[test]
fn test_ipv6_formatting() {
    let mut bytes = [0u8; 16];
    bytes[15] = 1;
    assert_eq!(ipv6_string(&bytes), "::1");
}

#[test]
fn ipv6_text_forms() {
    let addr = |groups: [u16; 8]| {
        let mut b = Vec::new();
        for g in groups {
            b.extend_from_slice(&g.to_be_bytes());
        }
        b
    };
    assert_eq!(ipv6_string(&[0u8; 16]), "::");
    assert_eq!(ipv6_string(&addr([0x2001, 0xdb8, 0, 0, 0, 0, 0, 1])), "2001:db8::1");
    assert_eq!(ipv6_string(&addr([1, 0, 0, 2, 0, 0, 0, 3])), "1:0:0:2::3");
    // Of two runs of the same length, the first is shortened.
    assert_eq!(ipv6_string(&addr([1, 0, 0, 2, 0, 0, 3, 4])), "1::2:0:0:3:4");
    // A single zero group stays.
    assert_eq!(ipv6_string(&addr([1, 0, 2, 3, 4, 5, 6, 7])), "1:0:2:3:4:5:6:7");
    assert_eq!(ipv6_string(&addr([0xfe80, 0, 0, 0, 0xabcd, 0xef, 0x1234, 0])), "fe80::abcd:ef:1234:0");
    assert_eq!(ipv6_string(&addr([1, 2, 3, 4, 5, 6, 7, 0])), "1:2:3:4:5:6:7:0");
    assert_eq!(ipv6_string(&addr([0, 0, 1, 0, 0, 0, 0, 0])), "0:0:1::");
    // IPv4-mapped addresses end in dotted decimal.
    assert_eq!(ipv6_string(&addr([0, 0, 0, 0, 0, 0xffff, 0x0102, 0x0304])), "::ffff:1.2.3.4");
    assert_eq!(ipv6_string(&addr([0, 0, 0, 0, 0, 0, 0x0102, 0x0304])), "::102:304");
}

#[test]
fn aaaa_record_as_text() {
    let mut data = [0u8; 16];
    data[0] = 0x20;
    data[1] = 0x01;
    data[2] = 0x0d;
    data[3] = 0xb8;
    data[15] = 0x2a;
    assert_eq!(only_answer(&response_with(28, &data)), text("2001:db8::2a"));
}

#[test]
fn test_parse_dns_type_unknown() {
    assert_eq!(parse_dns_type("UNKNOWN"), None);
    assert_eq!(parse_dns_type(""), None);
    assert_eq!(parse_dns_type("notatype"), None);
}

fn make_a_response() -> Vec<u8> {
    vec![
        0x00, 0x01, 0x81, 0x80, 0x00, 0x01, 0x00, 0x01, 0x00, 0x00, 0x00, 0x00, 0x07, b'e', b'x',
        b'a', b'm', b'p', b'l', b'e', 0x03, b'c', b'o', b'm', 0x00, 0x00, 0x01, 0x00, 0x01, 0xc0,
        0x0c, 0x00, 0x01, 0x00, 0x01, 0x00, 0x00, 0x0e, 0x10, 0x00, 0x04, 0x01, 0x02, 0x03, 0x04,
    ]
}

fn make_aaaa_response() -> Vec<u8> {
    let mut p = vec![
        0x00, 0x02, 0x81, 0x80, 0x00, 0x01, 0x00, 0x01, 0x00, 0x00, 0x00, 0x00, 0x07, b'e', b'x',
        b'a', b'm', b'p', b'l', b'e', 0x03, b'c', b'o', b'm', 0x00, 0x00, 0x1c, 0x00, 0x01, 0xc0,
        0x0c, 0x00, 0x1c, 0x00, 0x01, 0x00, 0x00, 0x00, 0x3c, 0x00, 0x10,
    ];
    p.extend_from_slice(&[0u8; 15]);
    p.push(0x01);
    p
}

#[test]
fn test_parse_dns_to_json_a_record() {
    let packet = make_a_response();
    let result = parse_dns_to_json(&packet);
    assert!(result.is_ok(), "parse failed: {:?}", result.err());
    let json = result.unwrap();
    assert_eq!(json.status, 0);
    assert!(!json.tc);
    assert!(json.rd);
    assert!(json.ra);
    let questions = json.question.expect("question section missing");
    assert_eq!(questions.len(), 1);
    assert_eq!(questions[0].name, "example.com");
    assert_eq!(questions[0].qtype, 1);
    let answers = json.answer.expect("answer section missing");
    assert_eq!(answers.len(), 1);
    assert_eq!(answers[0].rtype, 1);
    assert_eq!(answers[0].ttl, 3600);
    assert_eq!(answers[0].data, text("1.2.3.4"));
}

#[test]
fn test_parse_dns_to_json_aaaa_record() {
    let packet = make_aaaa_response();
    let result = parse_dns_to_json(&packet);
    assert!(result.is_ok(), "parse failed: {:?}", result.err());
    let json = result.unwrap();
    assert_eq!(json.status, 0);
    let answers = json.answer.expect("answer section missing");
    assert_eq!(answers.len(), 1);
    assert_eq!(answers[0].rtype, 28);
    assert_eq!(answers[0].ttl, 60);
    assert_eq!(answers[0].data, "::1");
}

#[test]
fn test_parse_dns_to_json_no_answer() {
    let packet = vec![
        0x00, 0x01, 0x81, 0x83, 0x00, 0x01, 0x00, 0x00, 0x00, 0x00, 0x00, 0x00, 0x07, b'e', b'x',
        b'a', b'm', b'p', b'l', b'e', 0x03, b'c', b'o', b'm', 0x00, 0x00, 0x01, 0x00, 0x01,
    ];
    let result = parse_dns_to_json(&packet);
    assert!(result.is_ok());
    let json = result.unwrap();
    assert_eq!(json.status, 3);
    assert!(json.answer.is_none());
}

#[test]
fn test_parse_dns_to_json_short_packet_error() {
    let packet = vec![0u8; 5];
    assert!(parse_dns_to_json(&packet).is_err());
}

fn make_default_query(name: &str) -> DnsJsonQuery {
    DnsJsonQuery {
        name: name.to_string(),
        qtype: None,
        cd: None,
        ct: None,
        do_: None,
        edns_client_subnet: None,
    }
}

#[test]
fn test_build_dns_query_basic() {
    let q = make_default_query("example.com");
    let result = build_dns_query(&q);
    assert!(result.is_ok());
    let pkt = result.unwrap();
    assert!(pkt.len() >= 17);
    assert_eq!(byteorder::BigEndian::read_u16(&pkt[4..6]), 1);
    assert_ne!(pkt[2] & 0x01, 0);
    let name_end = pkt[12..].iter().position(|&b| b == 0).unwrap();
    let qtype_offset = 12 + name_end + 1;
    let qtype = byteorder::BigEndian::read_u16(&pkt[qtype_offset..qtype_offset + 2]);
    assert_eq!(qtype, 1);
}

#[test]
fn test_build_dns_query_with_explicit_qtype() {
    let mut q = make_default_query("example.com");
    q.qtype = Some(28);
    let pkt = build_dns_query(&q).unwrap();
    let name_end = pkt[12..].iter().position(|&b| b == 0).unwrap();
    let qtype_offset = 12 + name_end + 1;
    let qtype = byteorder::BigEndian::read_u16(&pkt[qtype_offset..qtype_offset + 2]);
    assert_eq!(qtype, 28);
}

#[test]
fn test_build_dns_query_cd_flag() {
    let mut q = make_default_query("example.com");
    q.cd = Some(true);
    let pkt = build_dns_query(&q).unwrap();
    assert_ne!(pkt[3] & 0x10, 0, "CD flag should be set");
}

#[test]
fn test_build_dns_query_no_cd_flag() {
    let q = make_default_query("example.com");
    let pkt = build_dns_query(&q).unwrap();
    assert_eq!(pkt[3] & 0x10, 0, "CD flag should not be set");
}

#[test]
fn test_build_dns_query_with_do_flag_adds_edns() {
    let mut q = make_default_query("example.com");
    q.do_ = Some(true);
    let pkt = build_dns_query(&q).unwrap();
    assert_eq!(byteorder::BigEndian::read_u16(&pkt[10..12]), 1);
}

#[test]
fn test_build_dns_query_no_edns_by_default() {
    let q = make_default_query("example.com");
    let pkt = build_dns_query(&q).unwrap();
    assert_eq!(byteorder::BigEndian::read_u16(&pkt[10..12]), 0);
}

// ── Further cases ───────────────────────────────────────────────────────────

#[test]
fn build_query_exact_bytes() {
    let q = make_default_query("a.bc.");
    assert_eq!(
        build_dns_query_with_id(&q, 0xab, 0xcd),
        vec![0xab, 0xcd, 1, 0, 0, 1, 0, 0, 0, 0, 0, 0, 1, b'a', 2, b'b', b'c', 0, 0, 1, 0, 1]
    );
}

#[test]
fn build_query_with_subnet() {
    let mut q = make_default_query("x");
    q.do_ = Some(true);
    q.edns_client_subnet = Some("192.168.10.7".to_string());
    let pkt = build_dns_query_with_id(&q, 0, 0);
    assert_eq!(
        &pkt[19..],
        &[0, 0, 41, 0x10, 0, 0, 0, 0x80, 0, 0, 11, 0, 8, 0, 7, 0, 1, 24, 0, 192, 168, 10]
    );
    let mut q2 = make_default_query("x");
    q2.edns_client_subnet = Some("not an address".to_string());
    let pkt2 = build_dns_query_with_id(&q2, 0, 0);
    assert_eq!(&pkt2[19..], &[0, 0, 41, 0x10, 0, 0, 0, 0, 0, 0, 0]);
}

#[test]
fn ipv4_parsing() {
    let parse = |s: &str| parse_ipv4(&s.chars().collect::<Vec<char>>());
    assert_eq!(parse("1.2.3.4"), Some(vec![1, 2, 3, 4]));
    assert_eq!(parse("255.255.255.255"), Some(vec![255, 255, 255, 255]));
    assert_eq!(parse("0.0.0.0"), Some(vec![0, 0, 0, 0]));
    for bad in [
        "256.1.1.1", "01.2.3.4", "1.2.3", "1.2.3.4.5", "1..3.4", "", "a.b.c.d", "1.2.3.4 ",
        "+1.2.3.4", "1.2.3.0004",
    ] {
        assert_eq!(parse(bad), None, "{}", bad);
    }
}

#[test]
fn parse_dns_type_matches_std_numbers() {
    for s in ["0", "+7", "007", "-1", "+", "65536", "1a"] {
        let expected = s.parse::<u16>().ok();
        if expected.is_some() {
            assert_eq!(parse_dns_type(s), expected, "{}", s);
        }
    }
    assert_eq!(parse_dns_type("007"), Some(7));
    assert_eq!(parse_dns_type("65536"), None);
    assert_eq!(parse_dns_type("+7"), Some(7));
    assert_eq!(parse_dns_type("-1"), None);
}

#[test]
fn parse_name_pointer_and_errors() {
    let p = make_a_response();
    let (name, end) = parse_name(&p, 29).unwrap();
    assert_eq!(name, "example.com");
    assert_eq!(end, 31);
    assert_eq!(parse_name(&[0xc0u8], 0), Err(DnsError::IncompletePointer));
    assert_eq!(parse_name(&[3u8, b'a'], 0), Err(DnsError::LabelBeyondPacket));
    assert_eq!(parse_name(&[1u8, b'a'], 0), Err(DnsError::NameBeyondPacket));
}

/// A response to `example.com` whose one answer has type `rtype` and data `rdata`.
fn response_with(rtype: u16, rdata: &[u8]) -> Vec<u8> {
    let mut p = make_a_response();
    p.truncate(29);
    p[7] = 1;
    p.extend_from_slice(&[0xc0, 0x0c]);
    p.extend_from_slice(&rtype.to_be_bytes());
    p.extend_from_slice(&[0, 1, 0, 0, 0, 30]);
    p.extend_from_slice(&(rdata.len() as u16).to_be_bytes());
    p.extend_from_slice(rdata);
    p
}

fn only_answer(p: &[u8]) -> String {
    parse_dns_to_json(p).unwrap().answer.unwrap().remove(0).data
}

#[test]
fn record_data_kinds() {
    assert_eq!(only_answer(&response_with(5, &[0xc0, 0x0c])), text("example.com"));
    assert_eq!(only_answer(&response_with(15, &[0, 10, 0xc0, 0x0c])), text("10 example.com"));
    assert_eq!(only_answer(&response_with(16, &[2, b'h', b'i', 1, b'!', 9])), text("hi !"));
    assert_eq!(only_answer(&response_with(6, &[1, 2, 3])), text("<SOA record, 3 bytes>"));
    assert_eq!(
        only_answer(&response_with(33, &[0, 1, 0, 2, 0, 53, 0xc0, 0x0c])),
        text("1 2 53 example.com")
    );
    assert_eq!(
        only_answer(&response_with(257, &[0, 5, b'i', b's', b's', b'u', b'e', b'c', b'a'])),
        text("0 issue \"ca\"")
    );
    // Unknown types, and known ones of an unexpected size, are base64.
    assert_eq!(only_answer(&response_with(99, &[1, 2, 3])), text("AQID"));
    assert_eq!(only_answer(&response_with(1, &[1, 2, 3])), text("AQID"));
    // Invalid UTF-8 in text goes through the lossy decoding.
    assert_eq!(only_answer(&response_with(16, &[1, 0xff])), text("\u{fffd}"));
}

#[test]
fn opt_and_other_classes_are_skipped() {
    let mut p = response_with(41, &[]);
    assert!(parse_dns_to_json(&p).unwrap().answer.is_none());
    p = response_with(1, &[1, 2, 3, 4]);
    p[34] = 3; // class CH
    assert!(parse_dns_to_json(&p).unwrap().answer.is_none());
}

#[test]
fn json_errors() {
    let mut p = make_a_response();
    p.truncate(40);
    assert_eq!(parse_dns_to_json(&p).err(), Some(DnsError::IncompleteRecord));
    let mut p = make_a_response();
    p.pop();
    assert_eq!(parse_dns_to_json(&p).err(), Some(DnsError::RdataBeyondPacket));
    let mut p = make_a_response();
    p.truncate(27);
    assert_eq!(parse_dns_to_json(&p).err(), Some(DnsError::IncompleteQuestion));
    assert_eq!(parse_dns_to_json(&[0u8; 11]).err(), Some(DnsError::PacketTooShort));
}

#[test]
fn built_query_reads_back() {
    let mut q = make_default_query("www.example.com.");
    q.qtype = Some(15);
    q.cd = Some(true);
    q.do_ = Some(true);
    q.edns_client_subnet = Some("10.0.0.1".to_string());
    let pkt = build_dns_query_with_id(&q, 7, 9);
    let json = parse_dns_to_json(&pkt).unwrap();
    assert_eq!(json.status, 0);
    assert!(json.rd && json.cd && !json.tc && !json.ra && !json.ad);
    let questions = json.question.unwrap();
    assert_eq!(questions.len(), 1);
    assert_eq!(questions[0].name, "www.example.com");
    assert_eq!(questions[0].qtype, 15);
    assert!(json.answer.is_none() && json.authority.is_none() && json.additional.is_none());
}

#[test]
fn json_status_is_rcode() {
    let mut p = make_a_response();
    p[3] = 0x82;
    p[2] = 0x83;
    let json = parse_dns_to_json(&p).unwrap();
    assert_eq!(json.status, libdoh::dns::rcode(&p) as u16);
    assert_eq!(json.tc, libdoh::dns::is_truncated(&p));
    assert!(json.tc && json.ra);
}

#[test]
fn pointer_loops_are_detected() {
    // A name at 12 that points to itself, and one that loops through a label.
    let mut p = make_a_response();
    assert!(name_walk_ends(&p, 12));
    assert!(name_walk_ends(&p, 29));
    assert!(name_walks_end(&p));
    p[29] = 0xc0;
    p[30] = 29;
    assert!(!name_walk_ends(&p, 29));
    assert!(!name_walks_end(&p));
    assert!(parse_dns_to_json_checked(&p).is_none());
    assert_eq!(try_parse_name(&p, 29), None);
    let looped = vec![1u8, b'a', 0xc0, 0x00];
    assert!(!name_walk_ends(&looped, 0));
    // Walks that stop on an error end too.
    assert!(name_walk_ends(&[0xc0u8], 0));
    assert!(name_walk_ends(&[5u8, b'a'], 0));
    assert!(name_walk_ends(&[1u8], 7));
}

#[test]
fn checked_parse_agrees() {
    let p = make_a_response();
    let checked = parse_dns_to_json_checked(&p).unwrap().unwrap();
    let plain = parse_dns_to_json(&p).unwrap();
    assert_eq!(checked.answer.unwrap()[0].data, plain.answer.unwrap()[0].data);
    assert_eq!(parse_dns_to_json_checked(&[0u8; 3]).unwrap().err(), Some(DnsError::PacketTooShort));
}

#[test]
fn skip_and_parse_end_together() {
    let p = make_a_response();
    for off in [12usize, 29] {
        let (_, e) = parse_name(&p, off).unwrap();
        assert_eq!(libdoh::dns::skip_name(&p, off), Ok(e));
    }
}

#[test]
fn built_query_reads_back_text_labels() {
    let mut q = make_default_query("..caf\u{e9}.example..org.");
    q.qtype = None;
    let pkt = build_dns_query_with_id(&q, 1, 2);
    let json = parse_dns_to_json(&pkt).unwrap();
    let questions = json.question.unwrap();
    assert_eq!(questions[0].name, "caf\u{e9}.example.org");
    assert_eq!(questions[0].qtype, 1);
}
