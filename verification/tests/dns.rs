use libdoh::dns::{
    add_edns_padding, ancount, arcount, is_recoverable_error, is_truncated, min_ttl, padded_len,
    qdcount, rcode, set_edns_max_payload_size, skip_name, traverse_rrs, DNS_OFFSET_QUESTION,
};
use libdoh::error::DnsError;

/// Minimal DNS query for `example.com` A IN (no additional records).
fn make_query() -> Vec<u8> {
    vec![
        0x00, 0x01, // Transaction ID
        0x01, 0x00, // Flags: RD=1
        0x00, 0x01, // QDCOUNT: 1
        0x00, 0x00, // ANCOUNT: 0
        0x00, 0x00, // NSCOUNT: 0
        0x00, 0x00, // ARCOUNT: 0
        0x07, b'e', b'x', b'a', b'm', b'p', b'l', b'e', 0x03, b'c', b'o', b'm', 0x00, 0x00,
        0x01, // QTYPE: A
        0x00, 0x01, // QCLASS: IN
    ]
}

/// DNS response for `example.com` A = 1.2.3.4, TTL = 3600.
fn make_response_a() -> Vec<u8> {
    vec![
        0x00, 0x01, // Transaction ID
        0x81, 0x80, // Flags: QR=1, RD=1, RA=1
        0x00, 0x01, // QDCOUNT: 1
        0x00, 0x01, // ANCOUNT: 1
        0x00, 0x00, // NSCOUNT: 0
        0x00, 0x00, // ARCOUNT: 0
        0x07, b'e', b'x', b'a', b'm', b'p', b'l', b'e', 0x03, b'c', b'o', b'm', 0x00, 0x00,
        0x01, // QTYPE: A
        0x00, 0x01, // QCLASS: IN
        0xc0, 0x0c, // Name: pointer to offset 12
        0x00, 0x01, // TYPE: A
        0x00, 0x01, // CLASS: IN
        0x00, 0x00, 0x0e, 0x10, // TTL: 3600
        0x00, 0x04, // RDLENGTH: 4
        0x01, 0x02, 0x03, 0x04, // 1.2.3.4
    ]
}

#[test]
fn test_rcode_noerror() {
    let mut p = make_query();
    p[3] = 0x00;
    assert_eq!(rcode(&p), 0);
}

#[test]
fn test_rcode_servfail() {
    let mut p = make_query();
    p[3] = 0x02;
    assert_eq!(rcode(&p), 2);
}

#[test]
fn test_rcode_nxdomain() {
    let mut p = make_query();
    p[3] = 0x03;
    assert_eq!(rcode(&p), 3);
}

#[test]
fn test_rcode_refused() {
    let mut p = make_query();
    p[3] = 0x05;
    assert_eq!(rcode(&p), 5);
}

#[test]
fn test_qdcount() {
    let p = make_query();
    assert_eq!(qdcount(&p), 1);
}

#[test]
fn test_ancount_zero() {
    let p = make_query();
    assert_eq!(ancount(&p), 0);
}

#[test]
fn test_ancount_one() {
    let p = make_response_a();
    assert_eq!(ancount(&p), 1);
}

#[test]
fn test_arcount_zero() {
    let p = make_query();
    assert_eq!(arcount(&p), 0);
}

#[test]
fn test_is_recoverable_error_servfail() {
    let mut p = make_query();
    p[3] = 0x02;
    assert!(is_recoverable_error(&p));
}

#[test]
fn test_is_recoverable_error_refused() {
    let mut p = make_query();
    p[3] = 0x05;
    assert!(is_recoverable_error(&p));
}

#[test]
fn test_is_not_recoverable_noerror() {
    let mut p = make_query();
    p[3] = 0x00;
    assert!(!is_recoverable_error(&p));
}

#[test]
fn test_is_not_recoverable_nxdomain() {
    let mut p = make_query();
    p[3] = 0x03;
    assert!(!is_recoverable_error(&p));
}

#[test]
fn test_is_truncated_false() {
    let mut p = make_query();
    p[2] = 0x01;
    p[3] = 0x00;
    assert!(!is_truncated(&p));
}

#[test]
fn test_is_truncated_true() {
    let mut p = make_query();
    p[2] = 0x02;
    p[3] = 0x00;
    assert!(is_truncated(&p));
}

#[test]
fn test_is_truncated_with_rd_and_tc() {
    let mut p = make_query();
    p[2] = 0x03;
    p[3] = 0x00;
    assert!(is_truncated(&p));
}

#[test]
fn test_skip_name_simple() {
    let p = make_query();
    let result = skip_name(&p, DNS_OFFSET_QUESTION);
    assert!(result.is_ok());
    assert_eq!(result.unwrap(), 25);
}

#[test]
fn test_skip_name_compressed_pointer() {
    let p = make_response_a();
    let result = skip_name(&p, 29);
    assert!(result.is_ok());
    assert_eq!(result.unwrap(), 31);
}

#[test]
fn test_skip_name_short_packet_error() {
    let p = vec![0u8; 1];
    assert!(skip_name(&p, 0).is_err());
}

#[test]
fn test_skip_name_label_exceeds_packet_error() {
    let p = vec![5u8, b'a'];
    assert!(skip_name(&p, 0).is_err());
}

#[test]
fn test_skip_name_incomplete_pointer_error() {
    let p = vec![0xc0u8];
    assert!(skip_name(&p, 0).is_err());
}

#[test]
fn test_min_ttl_with_one_record() {
    let p = make_response_a();
    let result = min_ttl(&p, 10, 86400, 2);
    assert!(result.is_ok());
    assert_eq!(result.unwrap(), 3600);
}

#[test]
fn test_min_ttl_clamped_to_minimum() {
    let mut p = make_response_a();
    p[35] = 0x00;
    p[36] = 0x00;
    p[37] = 0x00;
    p[38] = 0x01;
    let result = min_ttl(&p, 10, 86400, 2);
    assert!(result.is_ok());
    assert_eq!(result.unwrap(), 10);
}

#[test]
fn test_min_ttl_clamped_to_maximum() {
    let mut p = make_response_a();
    p[35] = 0x00;
    p[36] = 0x01;
    p[37] = 0x00;
    p[38] = 0x00;
    let result = min_ttl(&p, 10, 100, 2);
    assert!(result.is_ok());
    assert_eq!(result.unwrap(), 100);
}

#[test]
fn test_min_ttl_query_only_packet_error() {
    let p = make_query();
    let result = min_ttl(&p, 0, 86400, 7);
    assert!(result.is_err());
}

#[test]
fn test_min_ttl_short_packet_error() {
    let p = vec![0u8; 5];
    assert!(min_ttl(&p, 10, 86400, 2).is_err());
}

#[test]
fn test_min_ttl_no_question_error() {
    let mut p = make_query();
    p[4] = 0x00;
    p[5] = 0x00;
    assert!(min_ttl(&p, 10, 86400, 2).is_err());
}

#[test]
fn test_set_edns_max_payload_size_adds_opt_record() {
    let mut p = make_query();
    assert_eq!(arcount(&p), 0);
    let result = set_edns_max_payload_size(&mut p, 4096);
    assert!(result.is_ok());
    assert_eq!(arcount(&p), 1);
}

#[test]
fn test_set_edns_max_payload_size_updates_existing_opt() {
    let mut p = make_query();
    set_edns_max_payload_size(&mut p, 1280).unwrap();
    assert_eq!(arcount(&p), 1);
    let len_after_first = p.len();
    set_edns_max_payload_size(&mut p, 4096).unwrap();
    assert_eq!(arcount(&p), 1);
    assert_eq!(p.len(), len_after_first);
}

#[test]
fn test_set_edns_max_payload_size_short_packet_error() {
    let mut p = vec![0u8; 5];
    assert!(set_edns_max_payload_size(&mut p, 4096).is_err());
}

#[test]
fn test_add_edns_padding_grows_packet() {
    let mut p = make_query();
    set_edns_max_payload_size(&mut p, 4096).unwrap();
    let len_before = p.len();
    let result = add_edns_padding(&mut p);
    assert!(result.is_ok());
    assert!(p.len() >= len_before);
}

#[test]
fn test_add_edns_padding_adds_opt_if_missing() {
    let mut p = make_query();
    assert_eq!(arcount(&p), 0);
    let result = add_edns_padding(&mut p);
    assert!(result.is_ok());
    assert_eq!(arcount(&p), 1);
}

#[test]
fn test_add_edns_padding_short_packet_error() {
    let mut p = vec![0u8; 5];
    assert!(add_edns_padding(&mut p).is_err());
}

// ── Further cases ───────────────────────────────────────────────────────────

#[test]
fn skip_name_error_kinds() {
    assert_eq!(skip_name(&[0u8], 0), Err(DnsError::ShortPacket));
    assert_eq!(skip_name(&[5u8, b'a'], 0), Err(DnsError::NameOutOfBounds));
    assert_eq!(skip_name(&[0x40u8, 0, 0], 0), Err(DnsError::LongLabel));
    assert_eq!(skip_name(&[0, 0xc0u8], 1), Err(DnsError::ShortPacket));
    assert_eq!(skip_name(&[1, b'a', 0xc0u8], 2), Err(DnsError::ShortPacket));
    // A pointer on the last byte but one is fine; a name of 256 bytes is too long.
    assert_eq!(skip_name(&[0xc0u8, 0x0c], 0), Ok(2));
    let mut long = Vec::new();
    for _ in 0..5 {
        long.push(63u8);
        long.extend_from_slice(&[b'x'; 63]);
    }
    long.push(0);
    long.push(0);
    assert_eq!(skip_name(&long, 0), Err(DnsError::NameTooLong));
}

#[test]
fn traverse_rrs_reaches_end_of_answers() {
    let p = make_response_a();
    assert_eq!(traverse_rrs(&p, 29, 1), Ok(p.len()));
    assert_eq!(traverse_rrs(&p, 29, 2), Err(DnsError::ShortPacket));
    let mut short = make_response_a();
    short.pop();
    assert_eq!(traverse_rrs(&short, 29, 1), Err(DnsError::RecordTooLong));
}

#[test]
fn min_ttl_failure_ttl_without_records() {
    // A question with one extra byte after type and class, no records: the
    // failure TTL is used, and the extra byte is refused as garbage.
    let mut p = make_query();
    p.push(0);
    assert_eq!(min_ttl(&p, 10, 86400, 2), Err(DnsError::GarbageAfterPacket));
}

#[test]
fn min_ttl_ignores_opt_records() {
    let mut p = make_response_a();
    set_edns_max_payload_size(&mut p, 1232).unwrap();
    assert_eq!(min_ttl(&p, 10, 86400, 2), Ok(3600));
}

#[test]
fn min_ttl_law_lower_bound() {
    let p = make_response_a();
    // min_ttl above the record TTL wins.
    assert_eq!(min_ttl(&p, 5000, 86400, 2), Ok(5000));
}

#[test]
fn min_ttl_large_packet() {
    let mut p = make_response_a();
    p.resize(4097, 0);
    assert_eq!(min_ttl(&p, 10, 86400, 2), Err(DnsError::LargePacket));
}

#[test]
fn set_edns_writes_size_and_record() {
    let mut p = make_query();
    let before = p.clone();
    set_edns_max_payload_size(&mut p, 0x1234).unwrap();
    assert_eq!(p.len(), before.len() + 11);
    assert_eq!(&p[before.len()..], &[0, 0, 41, 0x12, 0x34, 0, 0, 0, 0, 0, 0]);
    set_edns_max_payload_size(&mut p, 0x0500).unwrap();
    assert_eq!(&p[before.len() + 3..before.len() + 5], &[0x05, 0x00]);
}

#[test]
fn set_edns_idempotent_on_concrete_query() {
    let mut once = make_query();
    set_edns_max_payload_size(&mut once, 1232).unwrap();
    let mut twice = once.clone();
    set_edns_max_payload_size(&mut twice, 1232).unwrap();
    assert_eq!(once, twice);
}

#[test]
fn set_edns_duplicate_opt() {
    let mut p = make_query();
    set_edns_max_payload_size(&mut p, 512).unwrap();
    let opt = p[p.len() - 11..].to_vec();
    p.extend_from_slice(&opt);
    p[11] = 2;
    let before = p.clone();
    assert_eq!(set_edns_max_payload_size(&mut p, 4096), Err(DnsError::DuplicateOpt));
    // The first OPT record was updated before the duplicate was met.
    assert_eq!(p.len(), before.len());
    assert_eq!(&p[before.len() - 19..before.len() - 17], &[0x10, 0x00]);
}

#[test]
fn set_edns_too_many_additional_records() {
    let mut p = make_query();
    p[10] = 0xff;
    p[11] = 0xff;
    // No record can be read where 65535 additional records are announced.
    assert_eq!(set_edns_max_payload_size(&mut p, 512), Err(DnsError::ShortPacket));
}

#[test]
fn padding_reaches_boundary_plus_header() {
    let mut p = make_query();
    add_edns_padding(&mut p).unwrap();
    // 29 + 11 = 40 bytes pad to 64, plus the 4-byte option header.
    assert_eq!(p.len(), padded_len(40) + 4);
    assert_eq!(&p[40..44], &[0, 12, 0, 24]);
    assert!(p[44..].iter().all(|&b| b == b'X'));
    // The OPT record's data length counts the option.
    assert_eq!(&p[38..40], &[0, 28]);
}

#[test]
fn padded_len_boundaries() {
    assert_eq!(padded_len(0), 64);
    assert_eq!(padded_len(64), 64);
    assert_eq!(padded_len(65), 128);
    assert_eq!(padded_len(1153), 2688);
    assert_eq!(padded_len(4080), 4080);
    assert_eq!(padded_len(4081), 4096);
}

#[test]
fn padding_large_packet() {
    let mut p = make_query();
    set_edns_max_payload_size(&mut p, 4096).unwrap();
    // Trailing bytes are not looked at by the record scan.
    p.resize(4090, 0);
    let before = p.clone();
    assert_eq!(add_edns_padding(&mut p), Err(DnsError::LargePacket));
    assert_eq!(p, before);
}

#[test]
fn error_messages() {
    assert_eq!(DnsError::ShortPacket.message(), "Short packet");
    assert_eq!(DnsError::DuplicateOpt.message(), "Duplicate OPT RR found");
    assert_eq!(DnsError::PacketTooShort.message(), "DNS packet too short");
}
