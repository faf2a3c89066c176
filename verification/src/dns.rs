//! Inspection and rewriting of DNS messages in wire format.
use vstd::prelude::*;
use crate::error::DnsError;
use crate::wire::{be16, be32, put16, read_u16_at, read_u32_at, write_u16_at};

verus! {

/// Size of the fixed DNS header.
pub const DNS_HEADER_SIZE: usize = 12;
/// Offset of the flags in the header.
pub const DNS_OFFSET_FLAGS: usize = 2;
/// Longest name, in wire bytes, accepted while skipping a name.
pub const DNS_MAX_HOSTNAME_SIZE: usize = 256;
/// Largest DNS message handled.
pub const DNS_MAX_PACKET_SIZE: usize = 4096;
/// Offset of the question section.
pub const DNS_OFFSET_QUESTION: usize = 12;
/// The TC (truncated) bit of the flags.
pub const DNS_FLAGS_TC: u16 = 0x0200;
/// Record type of the EDNS OPT pseudo-record.
pub const DNS_TYPE_OPT: u16 = 41;
/// EDNS option code of the padding option.
pub const DNS_PTYPE_PADDING: u16 = 12;
/// Response code SERVFAIL.
pub const DNS_RCODE_SERVFAIL: u8 = 2;
/// Response code REFUSED.
pub const DNS_RCODE_REFUSED: u8 = 5;

/// Maps the offset of a result to an integer, for comparison with the specs.
pub open spec fn lift(r: Result<usize, DnsError>) -> Result<int, DnsError> {
    match r {
        Ok(v) => Ok(v as int),
        Err(e) => Err(e),
    }
}

// ---------------------------------------------------------------------------
// Header fields

/// The response code: the low four bits of the fourth header byte.
pub open spec fn spec_rcode(p: Seq<u8>) -> u8 {
    (p[3] % 16) as u8
}

/// Whether the TC flag (bit 1 of the third header byte) is set.
pub open spec fn spec_truncated(p: Seq<u8>) -> bool {
    (p[2] / 2) % 2 == 1
}

/// QDCOUNT, the number of questions.
pub open spec fn spec_qdcount(p: Seq<u8>) -> int {
    be16(p, 4)
}

/// ANCOUNT, the number of answer records.
pub open spec fn spec_ancount(p: Seq<u8>) -> int {
    be16(p, 6)
}

/// NSCOUNT, the number of authority records.
pub open spec fn spec_nscount(p: Seq<u8>) -> int {
    be16(p, 8)
}

/// ARCOUNT, the number of additional records.
pub open spec fn spec_arcount(p: Seq<u8>) -> int {
    be16(p, 10)
}

/// The response code of a message with at least four bytes.
pub fn rcode(packet: &[u8]) -> (r: u8)
    requires
        packet@.len() >= 4,
    ensures
        r == spec_rcode(packet@),
{
    let b = packet[3];
    assert(b & 0x0f == b % 16) by (bit_vector);
    b & 0x0f
}

/// QDCOUNT of a message with at least six bytes.
pub fn qdcount(packet: &[u8]) -> (r: u16)
    requires
        packet@.len() >= 6,
    ensures
        r == spec_qdcount(packet@),
{
    read_u16_at(packet, 4)
}

/// ANCOUNT of a message with at least eight bytes.
pub fn ancount(packet: &[u8]) -> (r: u16)
    requires
        packet@.len() >= 8,
    ensures
        r == spec_ancount(packet@),
{
    read_u16_at(packet, 6)
}

/// NSCOUNT of a message with at least ten bytes.
pub fn nscount(packet: &[u8]) -> (r: u16)
    requires
        packet@.len() >= 10,
    ensures
        r == spec_nscount(packet@),
{
    read_u16_at(packet, 8)
}

/// ARCOUNT of a message with at least twelve bytes.
pub fn arcount(packet: &[u8]) -> (r: u16)
    requires
        packet@.len() >= 12,
    ensures
        r == spec_arcount(packet@),
{
    read_u16_at(packet, 10)
}

/// Whether the response code is SERVFAIL or REFUSED, the failures worth retrying.
pub fn is_recoverable_error(packet: &[u8]) -> (r: bool)
    requires
        packet@.len() >= 4,
    ensures
        r <==> (spec_rcode(packet@) == DNS_RCODE_SERVFAIL || spec_rcode(packet@) == DNS_RCODE_REFUSED),
{
    let rcode = rcode(packet);
    rcode == DNS_RCODE_SERVFAIL || rcode == DNS_RCODE_REFUSED
}

/// Whether the TC flag of the message is set.
pub fn is_truncated(packet: &[u8]) -> (r: bool)
    requires
        packet@.len() >= 4,
    ensures
        r == spec_truncated(packet@),
{
    let flags = read_u16_at(packet, DNS_OFFSET_FLAGS);
    let hi = packet[2];
    let lo = packet[3];
    assert(flags == hi as u16 * 256 + lo as u16 ==> ((flags & 0x0200 == 0x0200) == ((hi / 2) % 2 == 1)))
        by (bit_vector);
    flags & DNS_FLAGS_TC == DNS_FLAGS_TC
}

// ---------------------------------------------------------------------------
// Names

/// Where the name that starts at `off` ends, `qlen` wire bytes of labels having
/// been read before it: a compression pointer (first byte 0xc0 or more) ends the
/// name after two bytes; a label is a length below 0x40 followed by that many
/// bytes, with at least one byte after it; the empty label ends the name; the
/// labels may add up to 256 bytes.
pub open spec fn name_end_from(p: Seq<u8>, off: int, qlen: int) -> Result<int, DnsError>
    decreases p.len() - off,
{
    if off < 0 || off >= p.len() {
        Err(DnsError::NameOutOfBounds)
    } else if p[off] >= 0xc0 {
        if p.len() - off >= 2 {
            Ok(off + 2)
        } else {
            Err(DnsError::IncompleteOffset)
        }
    } else if p[off] >= 0x40 {
        Err(DnsError::LongLabel)
    } else if !(p.len() - off - 1 > p[off]) {
        Err(DnsError::NameOutOfBounds)
    } else if qlen + p[off] + 1 > DNS_MAX_HOSTNAME_SIZE {
        Err(DnsError::NameTooLong)
    } else if p[off] == 0 {
        Ok(off + 1)
    } else {
        name_end_from(p, off + p[off] + 1, qlen + p[off] + 1)
    }
}

/// Where the name at `off` ends; the name must start before the last byte.
pub open spec fn skip_name_spec(p: Seq<u8>, off: int) -> Result<int, DnsError> {
    if off < p.len() - 1 {
        name_end_from(p, off, 0)
    } else {
        Err(DnsError::ShortPacket)
    }
}

/// A name ends after its start and within the message.
pub proof fn lemma_name_end_from_bounds(p: Seq<u8>, off: int, qlen: int)
    ensures
        name_end_from(p, off, qlen) matches Ok(e) ==> off < e <= p.len(),
    decreases p.len() - off,
{
    if 0 <= off < p.len() && p[off] < 0x40 && p.len() - off - 1 > p[off]
        && qlen + p[off] + 1 <= DNS_MAX_HOSTNAME_SIZE && p[off] != 0 {
        lemma_name_end_from_bounds(p, off + p[off] + 1, qlen + p[off] + 1);
    }
}

/// A name ends after its start and within the message.
pub proof fn lemma_skip_name_bounds(p: Seq<u8>, off: int)
    ensures
        skip_name_spec(p, off) matches Ok(e) ==> off < e <= p.len(),
{
    lemma_name_end_from_bounds(p, off, 0);
}

/// Skips the name at `offset` and returns the offset just after it. The message
/// must not be empty (the bound `packet.len() - 1` is computed first).
pub fn skip_name(packet: &[u8], offset: usize) -> (r: Result<usize, DnsError>)
    requires
        packet@.len() >= 1,
    ensures
        lift(r) == skip_name_spec(packet@, offset as int),
        r matches Ok(e) ==> offset < e <= packet@.len(),
{
    proof {
        lemma_skip_name_bounds(packet@, offset as int);
    }
    let packet_len = packet.len();
    if !(offset < packet_len - 1) {
        return Err(DnsError::ShortPacket);
    }
    let mut qname_len: usize = 0;
    let mut pos = offset;
    loop
        invariant
            packet_len == packet@.len(),
            pos < packet_len,
            qname_len <= DNS_MAX_HOSTNAME_SIZE,
            offset < packet_len - 1,
            skip_name_spec(packet@, offset as int) matches Ok(e) ==> offset < e <= packet@.len(),
            skip_name_spec(packet@, offset as int) == name_end_from(packet@, pos as int, qname_len as int),
        decreases packet_len - pos,
    {
        let label_len = packet[pos];
        assert((label_len & 0xc0 == 0xc0) == (label_len >= 0xc0)) by (bit_vector);
        if label_len & 0xc0 == 0xc0 {
            if !(packet_len - pos >= 2) {
                return Err(DnsError::IncompleteOffset);
            }
            return Ok(pos + 2);
        }
        let label_len = label_len as usize;
        if !(label_len < 0x40) {
            return Err(DnsError::LongLabel);
        }
        if !(packet_len - pos - 1 > label_len) {
            return Err(DnsError::NameOutOfBounds);
        }
        qname_len = qname_len + label_len + 1;
        if !(qname_len <= DNS_MAX_HOSTNAME_SIZE) {
            return Err(DnsError::NameTooLong);
        }
        pos = pos + label_len + 1;
        if label_len == 0 {
            return Ok(pos);
        }
    }
}

// ---------------------------------------------------------------------------
// Resource records

/// The fixed part of the record at `off`: its name, then ten bytes of type,
/// class, TTL and data length. `Ok` holds the offset just after the name.
pub open spec fn rr_head(p: Seq<u8>, off: int) -> Result<int, DnsError> {
    match skip_name_spec(p, off) {
        Ok(ne) => if p.len() - ne >= 10 {
            Ok(ne)
        } else {
            Err(DnsError::ShortPacket)
        },
        Err(e) => Err(e),
    }
}

/// The end of the record whose name ends at `ne`: its data, of the length
/// stored at `ne + 8`, must lie within the message.
pub open spec fn rr_next(p: Seq<u8>, ne: int) -> Result<int, DnsError> {
    if p.len() - (ne + 10) >= be16(p, ne + 8) {
        Ok(ne + 10 + be16(p, ne + 8))
    } else {
        Err(DnsError::RecordTooLong)
    }
}

/// The end of the whole record that starts at `off`.
pub open spec fn rr_step(p: Seq<u8>, off: int) -> Result<int, DnsError> {
    match rr_head(p, off) {
        Ok(ne) => rr_next(p, ne),
        Err(e) => Err(e),
    }
}

/// The end of `n` consecutive records that start at `off`.
pub open spec fn traverse_spec(p: Seq<u8>, off: int, n: nat) -> Result<int, DnsError>
    decreases n,
{
    if n == 0 {
        Ok(off)
    } else {
        match traverse_spec(p, off, (n - 1) as nat) {
            Ok(o) => rr_step(p, o),
            Err(e) => Err(e),
        }
    }
}

/// Once a traversal fails, traversing more records fails the same way.
pub proof fn lemma_traverse_err(p: Seq<u8>, off: int, i: nat, n: nat)
    requires
        i <= n,
        traverse_spec(p, off, i) is Err,
    ensures
        traverse_spec(p, off, n) == traverse_spec(p, off, i),
    decreases n,
{
    if n > i {
        lemma_traverse_err(p, off, i, (n - 1) as nat);
    }
}

/// Reads the fixed part of the record at `offset`; returns the offset after its name.
fn record_head(packet: &[u8], offset: usize) -> (r: Result<usize, DnsError>)
    requires
        packet@.len() >= 1,
    ensures
        lift(r) == rr_head(packet@, offset as int),
        r matches Ok(ne) ==> offset < ne && ne + 10 <= packet@.len(),
{
    match skip_name(packet, offset) {
        Ok(ne) => {
            if !(packet.len() - ne >= 10) {
                return Err(DnsError::ShortPacket);
            }
            Ok(ne)
        },
        Err(e) => Err(e),
    }
}

/// Checks that the data of the record whose name ends at `ne` fits; returns the record's end.
fn record_end(packet: &[u8], ne: usize) -> (r: Result<usize, DnsError>)
    requires
        ne + 10 <= packet@.len(),
    ensures
        lift(r) == rr_next(packet@, ne as int),
        r matches Ok(nx) ==> ne + 10 <= nx <= packet@.len(),
{
    let packet_len = packet.len();
    let rdlen = read_u16_at(packet, ne + 8) as usize;
    let offset = ne + 10;
    if !(packet_len - offset >= rdlen) {
        return Err(DnsError::RecordTooLong);
    }
    Ok(offset + rdlen)
}

/// Skips `rrcount` records from `offset`; returns the offset after the last one.
pub fn traverse_rrs(packet: &[u8], offset: usize, rrcount: usize) -> (r: Result<usize, DnsError>)
    requires
        rrcount > 0 ==> packet@.len() >= 1,
    ensures
        lift(r) == traverse_spec(packet@, offset as int, rrcount as nat),
        r matches Ok(e) ==> rrcount > 0 ==> e <= packet@.len(),
{
    let mut pos = offset;
    let mut i: usize = 0;
    while i < rrcount
        invariant
            i <= rrcount,
            rrcount > 0 ==> packet@.len() >= 1,
            traverse_spec(packet@, offset as int, i as nat) == Ok::<int, DnsError>(pos as int),
            i > 0 ==> pos <= packet@.len(),
        decreases rrcount - i,
    {
        let step = match record_head(packet, pos) {
            Ok(ne) => record_end(packet, ne),
            Err(e) => Err(e),
        };
        match step {
            Ok(nx) => {
                pos = nx;
                i = i + 1;
            },
            Err(e) => {
                proof {
                    lemma_traverse_err(packet@, offset as int, (i + 1) as nat, rrcount as nat);
                }
                return Err(e);
            },
        }
    }
    Ok(pos)
}

// ---------------------------------------------------------------------------
// The question

/// Checks the header of a message with one question and skips the question's
/// name: the message must be longer than the header, at most 4096 bytes, and
/// have QDCOUNT 1. `Ok` holds the offset after the question's name.
pub open spec fn question_name_end(p: Seq<u8>) -> Result<int, DnsError> {
    if p.len() <= DNS_OFFSET_QUESTION {
        Err(DnsError::ShortPacket)
    } else if p.len() > DNS_MAX_PACKET_SIZE {
        Err(DnsError::LargePacket)
    } else if spec_qdcount(p) != 1 {
        Err(DnsError::NoQuestion)
    } else {
        skip_name_spec(p, DNS_OFFSET_QUESTION as int)
    }
}

fn question_end(packet: &[u8]) -> (r: Result<usize, DnsError>)
    ensures
        lift(r) == question_name_end(packet@),
        r matches Ok(q) ==> DNS_OFFSET_QUESTION < q <= packet@.len() <= DNS_MAX_PACKET_SIZE,
{
    let packet_len = packet.len();
    if !(packet_len > DNS_OFFSET_QUESTION) {
        return Err(DnsError::ShortPacket);
    }
    if !(packet_len <= DNS_MAX_PACKET_SIZE) {
        return Err(DnsError::LargePacket);
    }
    if !(qdcount(packet) == 1) {
        return Err(DnsError::NoQuestion);
    }
    skip_name(packet, DNS_OFFSET_QUESTION)
}

// ---------------------------------------------------------------------------
// TTL

/// Scans `n` records from `off`, lowering `init` to the TTL of every record
/// that is not an OPT record and has a smaller TTL. `Ok` holds the offset after
/// the records and the lowest TTL found.
pub open spec fn ttl_scan(p: Seq<u8>, off: int, n: nat, init: u32) -> Result<(int, u32), DnsError>
    decreases n,
{
    if n == 0 {
        Ok((off, init))
    } else {
        match ttl_scan(p, off, (n - 1) as nat, init) {
            Err(e) => Err(e),
            Ok((o, f)) => match rr_head(p, o) {
                Err(e) => Err(e),
                Ok(ne) => match rr_next(p, ne) {
                    Err(e) => Err(e),
                    Ok(nx) => Ok(
                        (
                            nx,
                            if be16(p, ne) != DNS_TYPE_OPT && be32(p, ne + 4) < f {
                                be32(p, ne + 4) as u32
                            } else {
                                f
                            },
                        ),
                    ),
                },
            },
        }
    }
}

/// Once a TTL scan fails, scanning more records fails the same way.
pub proof fn lemma_ttl_scan_err(p: Seq<u8>, off: int, i: nat, n: nat, init: u32)
    requires
        i <= n,
        ttl_scan(p, off, i, init) is Err,
    ensures
        ttl_scan(p, off, n, init) == ttl_scan(p, off, i, init),
    decreases n,
{
    if n > i {
        lemma_ttl_scan_err(p, off, i, (n - 1) as nat, init);
    }
}

/// The TTL to cache a response for: the lowest TTL among its records other than
/// OPT records, starting from `max_ttl` (or `failure_ttl` when the message has no
/// records) and raised to `min_ttl` if below it. The message must have one
/// question followed by more than its type and class, and end exactly after its
/// last record.
pub open spec fn min_ttl_spec(p: Seq<u8>, min_ttl: u32, max_ttl: u32, failure_ttl: u32) -> Result<u32, DnsError> {
    match question_name_end(p) {
        Err(e) => Err(e),
        Ok(q) => if !(p.len() - q > 4) {
            Err(DnsError::ShortPacket)
        } else {
            let n = spec_ancount(p) + spec_nscount(p) + spec_arcount(p);
            let init = if n > 0 { max_ttl } else { failure_ttl };
            match ttl_scan(p, q + 4, n as nat, init) {
                Err(e) => Err(e),
                Ok((end, found)) => if p.len() != end {
                    Err(DnsError::GarbageAfterPacket)
                } else if found < min_ttl {
                    Ok(min_ttl)
                } else {
                    Ok(found)
                },
            }
        },
    }
}

/// The TTL to cache the response `packet` for; see `min_ttl_spec`.
#[verifier::loop_isolation(false)]
pub fn min_ttl(packet: &[u8], min_ttl_value: u32, max_ttl: u32, failure_ttl: u32) -> (r: Result<u32, DnsError>)
    ensures
        r == min_ttl_spec(packet@, min_ttl_value, max_ttl, failure_ttl),
{
    let packet_len = packet.len();
    let q = match question_end(packet) {
        Ok(q) => q,
        Err(e) => return Err(e),
    };
    if !(packet_len - q > 4) {
        return Err(DnsError::ShortPacket);
    }
    let start = q + 4;
    let ancount = ancount(packet);
    let nscount = nscount(packet);
    let arcount = arcount(packet);
    let rrcount = ancount as usize + nscount as usize + arcount as usize;
    let init = if rrcount > 0 { max_ttl } else { failure_ttl };
    let mut found_min_ttl = init;
    let mut offset = start;
    let mut i: usize = 0;
    while i < rrcount
        invariant
            i <= rrcount,
            packet_len == packet@.len(),
            packet_len >= 1,
            ttl_scan(packet@, start as int, i as nat, init) == Ok::<(int, u32), DnsError>((offset as int, found_min_ttl)),
        decreases rrcount - i,
    {
        let ne = match record_head(packet, offset) {
            Ok(ne) => ne,
            Err(e) => {
                proof {
                    lemma_ttl_scan_err(packet@, start as int, (i + 1) as nat, rrcount as nat, init);
                }
                return Err(e);
            },
        };
        let qtype = read_u16_at(packet, ne);
        let ttl = read_u32_at(packet, ne + 4);
        let nx = match record_end(packet, ne) {
            Ok(nx) => nx,
            Err(e) => {
                proof {
                    lemma_ttl_scan_err(packet@, start as int, (i + 1) as nat, rrcount as nat, init);
                }
                return Err(e);
            },
        };
        if qtype != DNS_TYPE_OPT && ttl < found_min_ttl {
            found_min_ttl = ttl;
        }
        offset = nx;
        i = i + 1;
    }
    if found_min_ttl < min_ttl_value {
        found_min_ttl = min_ttl_value;
    }
    if !(packet_len == offset) {
        return Err(DnsError::GarbageAfterPacket);
    }
    Ok(found_min_ttl)
}

// ---------------------------------------------------------------------------
// EDNS

/// The OPT pseudo-record that announces EDNS: the root name, type OPT, the UDP
/// payload size in place of the class, a zero TTL and no data.
pub open spec fn opt_rr(size: u16) -> Seq<u8> {
    seq![0u8, 0u8, 41u8, (size / 256) as u8, (size % 256) as u8, 0u8, 0u8, 0u8, 0u8, 0u8, 0u8]
}

/// Incrementing ARCOUNT: refused at 0xffff, else the header field grows by one.
pub open spec fn arcount_inc_spec(p: Seq<u8>) -> (Seq<u8>, Result<(), DnsError>) {
    if spec_arcount(p) >= 0xffff {
        (p, Err(DnsError::TooManyAdditionalRecords))
    } else {
        (put16(p, 10, (spec_arcount(p) + 1) as u16), Ok(()))
    }
}

/// Appending an OPT record announcing `size`: refused when the message would
/// exceed 4096 bytes or ARCOUNT cannot grow; otherwise ARCOUNT grows by one
/// and the record is appended.
pub open spec fn add_edns_section_spec(p: Seq<u8>, size: u16) -> (Seq<u8>, Result<(), DnsError>) {
    if DNS_MAX_PACKET_SIZE - p.len() < 11 {
        (p, Err(DnsError::RecordWouldNotFit))
    } else {
        let inc = arcount_inc_spec(p);
        match inc.1 {
            Err(e) => (p, Err(e)),
            Ok(_) => (inc.0 + opt_rr(size), Ok(())),
        }
    }
}

fn arcount_inc(packet: &mut Vec<u8>) -> (r: Result<(), DnsError>)
    requires
        old(packet)@.len() >= 12,
    ensures
        final(packet)@ == arcount_inc_spec(old(packet)@).0,
        r == arcount_inc_spec(old(packet)@).1,
{
    let arcount = arcount(packet.as_slice());
    if !(arcount < 0xffff) {
        return Err(DnsError::TooManyAdditionalRecords);
    }
    let arcount = arcount + 1;
    write_u16_at(packet, 10, arcount);
    Ok(())
}

fn add_edns_section(packet: &mut Vec<u8>, max_payload_size: u16) -> (r: Result<(), DnsError>)
    requires
        12 <= old(packet)@.len() <= DNS_MAX_PACKET_SIZE,
    ensures
        final(packet)@ == add_edns_section_spec(old(packet)@, max_payload_size).0,
        r == add_edns_section_spec(old(packet)@, max_payload_size).1,
{
    let mut opt_rr: Vec<u8> = vec![
        0,
        0,
        41,
        (max_payload_size / 256) as u8,
        (max_payload_size % 256) as u8,
        0,
        0,
        0,
        0,
        0,
        0,
    ];
    if !(DNS_MAX_PACKET_SIZE - packet.len() >= opt_rr.len()) {
        return Err(DnsError::RecordWouldNotFit);
    }
    match arcount_inc(packet) {
        Ok(()) => {},
        Err(e) => return Err(e),
    }
    packet.append(&mut opt_rr);
    assert(final(packet)@ =~= add_edns_section_spec(old(packet)@, max_payload_size).0);
    Ok(())
}

/// Scans `n` additional records from `off` for OPT records. The first part is
/// the offset after the name of the first OPT record met (the place of its
/// fixed fields), the second the offset after the records, or the failure: a
/// second OPT record is refused as soon as its fixed part has been read.
pub open spec fn opt_scan(p: Seq<u8>, off: int, n: nat) -> (Option<int>, Result<int, DnsError>)
    decreases n,
{
    if n == 0 {
        (None, Ok(off))
    } else {
        let prev = opt_scan(p, off, (n - 1) as nat);
        match prev.1 {
            Err(e) => prev,
            Ok(o) => match rr_head(p, o) {
                Err(e) => (prev.0, Err(e)),
                Ok(ne) => if be16(p, ne) == DNS_TYPE_OPT {
                    if prev.0 is Some {
                        (prev.0, Err(DnsError::DuplicateOpt))
                    } else {
                        (Some(ne), rr_next(p, ne))
                    }
                } else {
                    (prev.0, rr_next(p, ne))
                },
            },
        }
    }
}

/// Once an OPT scan fails, scanning more records changes nothing.
pub proof fn lemma_opt_scan_err(p: Seq<u8>, off: int, i: nat, n: nat)
    requires
        i <= n,
        opt_scan(p, off, i).1 is Err,
    ensures
        opt_scan(p, off, n) == opt_scan(p, off, i),
    decreases n,
{
    if n > i {
        lemma_opt_scan_err(p, off, i, (n - 1) as nat);
    }
}

/// The OPT record found by a scan is an OPT record whose fixed part lies in the message.
pub proof fn lemma_opt_scan_found(p: Seq<u8>, off: int, n: nat)
    ensures
        opt_scan(p, off, n).0 matches Some(pos) ==> pos + 10 <= p.len() && be16(p, pos) == DNS_TYPE_OPT,
    decreases n,
{
    if n > 0 {
        lemma_opt_scan_found(p, off, (n - 1) as nat);
    }
}

/// Maps an optional offset to an integer, for comparison with the specs.
pub open spec fn lift_opt(o: Option<usize>) -> Option<int> {
    match o {
        Some(v) => Some(v as int),
        None => None,
    }
}

fn scan_opt(packet: &[u8], offset: usize, rrcount: usize) -> (r: (Option<usize>, Result<usize, DnsError>))
    requires
        packet@.len() >= 1,
    ensures
        lift_opt(r.0) == opt_scan(packet@, offset as int, rrcount as nat).0,
        lift(r.1) == opt_scan(packet@, offset as int, rrcount as nat).1,
        r.0 matches Some(pos) ==> pos + 10 <= packet@.len(),
{
    proof {
        lemma_opt_scan_found(packet@, offset as int, rrcount as nat);
    }
    let mut found: Option<usize> = None;
    let mut pos = offset;
    let mut i: usize = 0;
    while i < rrcount
        invariant
            i <= rrcount,
            packet@.len() >= 1,
            lift_opt(found) == opt_scan(packet@, offset as int, i as nat).0,
            found matches Some(f) ==> f + 10 <= packet@.len(),
            opt_scan(packet@, offset as int, i as nat).1 == Ok::<int, DnsError>(pos as int),
        decreases rrcount - i,
    {
        let ne = match record_head(packet, pos) {
            Ok(ne) => ne,
            Err(e) => {
                proof {
                    lemma_opt_scan_err(packet@, offset as int, (i + 1) as nat, rrcount as nat);
                }
                return (found, Err(e));
            },
        };
        let qtype = read_u16_at(packet, ne);
        if qtype == DNS_TYPE_OPT {
            if found.is_some() {
                proof {
                    lemma_opt_scan_err(packet@, offset as int, (i + 1) as nat, rrcount as nat);
                }
                return (found, Err(DnsError::DuplicateOpt));
            }
            found = Some(ne);
        }
        match record_end(packet, ne) {
            Ok(nx) => {
                pos = nx;
            },
            Err(e) => {
                proof {
                    lemma_opt_scan_err(packet@, offset as int, (i + 1) as nat, rrcount as nat);
                }
                return (found, Err(e));
            },
        }
        i = i + 1;
    }
    (found, Ok(pos))
}

/// Setting the EDNS UDP payload size of a query: the message must have one
/// question followed by its type and class, then its answer and authority
/// records; the additional records are scanned for one OPT record. The first
/// OPT record met gets `size` in place of its class, even when the scan fails
/// later; with no OPT record, one is appended (see `add_edns_section_spec`).
pub open spec fn set_edns_max_payload_size_spec(p: Seq<u8>, size: u16) -> (Seq<u8>, Result<(), DnsError>) {
    match question_name_end(p) {
        Err(e) => (p, Err(e)),
        Ok(q) => if !(p.len() - q >= 4) {
            (p, Err(DnsError::ShortPacket))
        } else {
            match traverse_spec(p, q + 4, (spec_ancount(p) + spec_nscount(p)) as nat) {
                Err(e) => (p, Err(e)),
                Ok(o) => {
                    let scan = opt_scan(p, o, spec_arcount(p) as nat);
                    let written = match scan.0 {
                        Some(pos) => put16(p, pos + 2, size),
                        None => p,
                    };
                    match scan.1 {
                        Err(e) => (written, Err(e)),
                        Ok(_) => if scan.0 is Some {
                            (written, Ok(()))
                        } else {
                            add_edns_section_spec(p, size)
                        },
                    }
                },
            }
        },
    }
}

/// Sets the EDNS UDP payload size announced by the query `packet` to
/// `max_payload_size`, adding an OPT record when it has none.
pub fn set_edns_max_payload_size(packet: &mut Vec<u8>, max_payload_size: u16) -> (r: Result<(), DnsError>)
    ensures
        final(packet)@ == set_edns_max_payload_size_spec(old(packet)@, max_payload_size).0,
        r == set_edns_max_payload_size_spec(old(packet)@, max_payload_size).1,
{
    let packet_len = packet.len();
    let q = match question_end(packet.as_slice()) {
        Ok(q) => q,
        Err(e) => return Err(e),
    };
    if !(packet_len - q >= 4) {
        return Err(DnsError::ShortPacket);
    }
    let ancount = ancount(packet.as_slice());
    let nscount = nscount(packet.as_slice());
    let arcount = arcount(packet.as_slice());
    let offset = match traverse_rrs(packet.as_slice(), q + 4, ancount as usize + nscount as usize) {
        Ok(o) => o,
        Err(e) => return Err(e),
    };
    let (found, outcome) = scan_opt(packet.as_slice(), offset, arcount as usize);
    match found {
        Some(pos) => write_u16_at(packet, pos + 2, max_payload_size),
        None => {},
    }
    match outcome {
        Ok(_) => {},
        Err(e) => return Err(e),
    }
    if found.is_some() {
        return Ok(());
    }
    add_edns_section(packet, max_payload_size)
}

/// The size a message is padded to: the first of 64, 128, 192, 256, 320, 384,
/// 512, 704, 768, 896, 960, 1024, 1088, 1152, 2688 and 4080 that is at least
/// `n`, and 4096 above them all.
pub open spec fn padded_len_spec(n: int) -> int {
    if n <= 64 {
        64
    } else if n <= 128 {
        128
    } else if n <= 192 {
        192
    } else if n <= 256 {
        256
    } else if n <= 320 {
        320
    } else if n <= 384 {
        384
    } else if n <= 512 {
        512
    } else if n <= 704 {
        704
    } else if n <= 768 {
        768
    } else if n <= 896 {
        896
    } else if n <= 960 {
        960
    } else if n <= 1024 {
        1024
    } else if n <= 1088 {
        1088
    } else if n <= 1152 {
        1152
    } else if n <= 2688 {
        2688
    } else if n <= 4080 {
        4080
    } else {
        4096
    }
}

/// The size a message of `unpadded_len` bytes is padded to.
pub fn padded_len(unpadded_len: usize) -> (r: usize)
    ensures
        r == padded_len_spec(unpadded_len as int),
{
    let boundaries: [usize; 16] = [
        64, 128, 192, 256, 320, 384, 512, 704, 768, 896, 960, 1024, 1088, 1152, 2688, 4080,
    ];
    let mut i: usize = 0;
    while i < 16
        invariant
            i <= 16,
            boundaries@ == seq![64usize, 128, 192, 256, 320, 384, 512, 704, 768, 896, 960, 1024, 1088, 1152, 2688, 4080],
            forall|j: int| 0 <= j < i ==> boundaries@[j] < unpadded_len,
        decreases 16 - i,
    {
        if boundaries[i] >= unpadded_len {
            return boundaries[i];
        }
        i = i + 1;
    }
    DNS_MAX_PACKET_SIZE
}

/// The EDNS padding option of `pad` bytes: option code 12, its length, then
/// `pad` bytes 'X'.
pub open spec fn padding_option(pad: nat) -> Seq<u8> {
    seq![0u8, 12u8, (pad / 256) as u8, (pad % 256) as u8] + Seq::new(pad, |i: int| 0x58u8)
}

/// Padding a message whose OPT record's fixed part starts at `eo`: the padding
/// option brings the message to `padded_len_spec` of its length plus the four
/// bytes of the option header, is appended to the message and counted in the
/// data length of the OPT record.
pub open spec fn pad_edns_spec(p: Seq<u8>, eo: int) -> (Seq<u8>, Result<(), DnsError>) {
    let len = p.len() as int;
    let pad = padded_len_spec(len) - len;
    let prr_len = 4 + pad;
    let rdo = eo + 8;
    if !(len - rdo >= 2) {
        (p, Err(DnsError::ShortPacket))
    } else if !(eo + be16(p, rdo) <= len) {
        (p, Err(DnsError::EdnsOutOfRange))
    } else if !(0xffff - be16(p, rdo) >= prr_len) {
        (p, Err(DnsError::EdnsTooLargeForPadding))
    } else if !(DNS_MAX_PACKET_SIZE - len >= prr_len) {
        (p, Err(DnsError::LargePacket))
    } else {
        (put16(p, rdo, (be16(p, rdo) + prr_len) as u16) + padding_option(pad as nat), Ok(()))
    }
}

/// Adding EDNS padding to a query: the message is checked and its records
/// skipped as for `set_edns_max_payload_size_spec`; without an OPT record one
/// announcing 4096 bytes is appended first; then the padding option is added.
pub open spec fn add_edns_padding_spec(p: Seq<u8>) -> (Seq<u8>, Result<(), DnsError>) {
    match question_name_end(p) {
        Err(e) => (p, Err(e)),
        Ok(q) => if !(p.len() - q >= 4) {
            (p, Err(DnsError::ShortPacket))
        } else {
            match traverse_spec(p, q + 4, (spec_ancount(p) + spec_nscount(p)) as nat) {
                Err(e) => (p, Err(e)),
                Ok(o) => {
                    let scan = opt_scan(p, o, spec_arcount(p) as nat);
                    match scan.1 {
                        Err(e) => (p, Err(e)),
                        Ok(_) => match scan.0 {
                            Some(pos) => pad_edns_spec(p, pos),
                            None => {
                                let added = add_edns_section_spec(p, 4096);
                                match added.1 {
                                    Err(e) => added,
                                    Ok(_) => pad_edns_spec(added.0, p.len() + 1int),
                                }
                            },
                        },
                    }
                },
            }
        },
    }
}

fn pad_edns(packet: &mut Vec<u8>, edns_offset: usize) -> (r: Result<(), DnsError>)
    requires
        old(packet)@.len() <= DNS_MAX_PACKET_SIZE,
        edns_offset + 10 <= old(packet)@.len(),
    ensures
        final(packet)@ == pad_edns_spec(old(packet)@, edns_offset as int).0,
        r == pad_edns_spec(old(packet)@, edns_offset as int).1,
{
    let packet_len = packet.len();
    let padding_len = padded_len(packet_len) - packet_len;
    let mut edns_padding_prr: Vec<u8> = vec![0x58u8; 4 + padding_len];
    write_u16_at(&mut edns_padding_prr, 0, DNS_PTYPE_PADDING);
    write_u16_at(&mut edns_padding_prr, 2, padding_len as u16);
    let edns_padding_prr_len = edns_padding_prr.len();
    let edns_rdlen_offset: usize = edns_offset + 8;
    if !(packet_len - edns_rdlen_offset >= 2) {
        return Err(DnsError::ShortPacket);
    }
    let edns_rdlen = read_u16_at(packet.as_slice(), edns_rdlen_offset);
    if !(edns_offset + edns_rdlen as usize <= packet_len) {
        return Err(DnsError::EdnsOutOfRange);
    }
    if !(0xffff - edns_rdlen as usize >= edns_padding_prr_len) {
        return Err(DnsError::EdnsTooLargeForPadding);
    }
    if !(DNS_MAX_PACKET_SIZE - packet_len >= edns_padding_prr_len) {
        return Err(DnsError::LargePacket);
    }
    write_u16_at(packet, edns_rdlen_offset, edns_rdlen + edns_padding_prr_len as u16);
    let ghost prr = edns_padding_prr@;
    assert(prr =~= padding_option(padding_len as nat));
    packet.append(&mut edns_padding_prr);
    Ok(())
}

/// Adds EDNS padding to the query `packet`; see `add_edns_padding_spec`.
pub fn add_edns_padding(packet: &mut Vec<u8>) -> (r: Result<(), DnsError>)
    ensures
        final(packet)@ == add_edns_padding_spec(old(packet)@).0,
        r == add_edns_padding_spec(old(packet)@).1,
{
    let packet_len = packet.len();
    let q = match question_end(packet.as_slice()) {
        Ok(q) => q,
        Err(e) => return Err(e),
    };
    if !(packet_len - q >= 4) {
        return Err(DnsError::ShortPacket);
    }
    let ancount = ancount(packet.as_slice());
    let nscount = nscount(packet.as_slice());
    let arcount = arcount(packet.as_slice());
    let offset = match traverse_rrs(packet.as_slice(), q + 4, ancount as usize + nscount as usize) {
        Ok(o) => o,
        Err(e) => return Err(e),
    };
    let (found, outcome) = scan_opt(packet.as_slice(), offset, arcount as usize);
    match outcome {
        Ok(_) => {},
        Err(e) => return Err(e),
    }
    let edns_offset = match found {
        Some(edns_offset) => edns_offset,
        None => {
            let edns_offset = packet.len() + 1;
            match add_edns_section(packet, DNS_MAX_PACKET_SIZE as u16) {
                Ok(()) => {},
                Err(e) => return Err(e),
            }
            edns_offset
        },
    };
    pad_edns(packet, edns_offset)
}

// ---------------------------------------------------------------------------
// Laws

/// A message of at most 4096 bytes is never padded to fewer bytes than it has,
/// nor to more than 4096.
pub proof fn law_padded_len_covers(n: int)
    requires
        n <= DNS_MAX_PACKET_SIZE,
    ensures
        n <= padded_len_spec(n) <= DNS_MAX_PACKET_SIZE,
{
}

/// Padding makes a query longer, and its new length is four bytes more than
/// the padding boundary of the query (with its OPT record, if one was added).
pub proof fn law_padding_length(p: Seq<u8>)
    requires
        add_edns_padding_spec(p).1 is Ok,
    ensures
        add_edns_padding_spec(p).0.len() > p.len(),
        add_edns_padding_spec(p).0.len() == padded_len_spec(p.len() as int) + 4
            || add_edns_padding_spec(p).0.len() == padded_len_spec(p.len() + 11int) + 4,
{
    let q = question_name_end(p)->Ok_0;
    let o = traverse_spec(p, q + 4, (spec_ancount(p) + spec_nscount(p)) as nat)->Ok_0;
    let scan = opt_scan(p, o, spec_arcount(p) as nat);
    lemma_skip_name_bounds(p, DNS_OFFSET_QUESTION as int);
    lemma_traverse_frame(p, p, q + 4, (spec_ancount(p) + spec_nscount(p)) as nat, o);
    lemma_opt_scan_order(p, o, spec_arcount(p) as nat);
    let base = match scan.0 {
        Some(pos) => p,
        None => add_edns_section_spec(p, 4096).0,
    };
    let eo = match scan.0 {
        Some(pos) => pos,
        None => p.len() + 1int,
    };
    assert(pad_edns_spec(base, eo) == add_edns_padding_spec(p));
    let len = base.len() as int;
    let pad = padded_len_spec(len) - len;
    let rdo = eo + 8;
    let rd = be16(base, rdo);
    assert(padding_option(pad as nat).len() == 4 + pad);
    assert(put16(base, rdo, (rd + 4 + pad) as u16).len() == len);
    assert(add_edns_padding_spec(p).0.len() == len + 4 + pad);
    assert(base.len() == p.len() || base.len() == p.len() + 11);
}

/// Over `n` records, the TTL scan never raises the TTL it starts from.
pub proof fn lemma_ttl_scan_le_init(p: Seq<u8>, off: int, n: nat, init: u32)
    ensures
        ttl_scan(p, off, n, init) matches Ok((_, f)) ==> f <= init,
    decreases n,
{
    if n > 0 {
        lemma_ttl_scan_le_init(p, off, (n - 1) as nat, init);
    }
}

/// The cache TTL is never below `min_ttl`; a message with records never gets
/// more than the larger of `max_ttl` and `min_ttl`; a message without records
/// gets the larger of `failure_ttl` and `min_ttl`.
pub proof fn law_min_ttl_bounds(p: Seq<u8>, min_ttl: u32, max_ttl: u32, failure_ttl: u32)
    requires
        min_ttl_spec(p, min_ttl, max_ttl, failure_ttl) is Ok,
    ensures
        min_ttl_spec(p, min_ttl, max_ttl, failure_ttl) matches Ok(t) && {
            &&& t >= min_ttl
            &&& spec_ancount(p) + spec_nscount(p) + spec_arcount(p) > 0 ==> t <= max_ttl || t == min_ttl
            &&& spec_ancount(p) + spec_nscount(p) + spec_arcount(p) == 0 ==> t == (if failure_ttl < min_ttl { min_ttl } else { failure_ttl })
        },
{
    let q = question_name_end(p)->Ok_0;
    let n = spec_ancount(p) + spec_nscount(p) + spec_arcount(p);
    let init = if n > 0 { max_ttl } else { failure_ttl };
    lemma_ttl_scan_le_init(p, q + 4, n as nat, init);
}

/// The type and TTL of record `i` of the records that follow one another
/// from `off`: present when the records before it can be skipped and its
/// name and fixed fields read.
pub open spec fn record_type_ttl(p: Seq<u8>, off: int, i: nat) -> Option<(u16, u32)> {
    match traverse_spec(p, off, i) {
        Ok(o) => match rr_head(p, o) {
            Ok(ne) => Some((be16(p, ne) as u16, be32(p, ne + 4) as u32)),
            Err(_) => None,
        },
        Err(_) => None,
    }
}

/// Whether record `i` from `off` can be read and is not an OPT record.
pub open spec fn is_ttl_record(p: Seq<u8>, off: int, i: nat) -> bool {
    match record_type_ttl(p, off, i) {
        Some((t, _)) => t != DNS_TYPE_OPT,
        None => false,
    }
}

/// The TTL of record `i` from `off`.
pub open spec fn record_ttl(p: Seq<u8>, off: int, i: nat) -> u32 {
    match record_type_ttl(p, off, i) {
        Some((_, ttl)) => ttl,
        None => 0,
    }
}

/// A successful TTL scan over `n` records reads every one of them, ends where
/// they end, and finds a TTL that is no larger than `init` nor than the TTL of
/// any of them that is not an OPT record, and that is `init` or one of those TTLs.
proof fn lemma_ttl_scan_smallest(p: Seq<u8>, off: int, n: nat, init: u32)
    requires
        ttl_scan(p, off, n, init) is Ok,
    ensures
        ttl_scan(p, off, n, init) matches Ok((o, f)) && {
            &&& traverse_spec(p, off, n) == Ok::<int, DnsError>(o)
            &&& f <= init
            &&& forall|i: nat| i < n ==> (#[trigger] record_type_ttl(p, off, i)) is Some
            &&& forall|i: nat| i < n && #[trigger] is_ttl_record(p, off, i) ==> f <= record_ttl(p, off, i)
            &&& f == init || exists|i: nat| i < n && #[trigger] is_ttl_record(p, off, i) && f == record_ttl(p, off, i)
        },
    decreases n,
{
    if n > 0 {
        let m = (n - 1) as nat;
        lemma_ttl_scan_smallest(p, off, m, init);
        let (o, f) = ttl_scan(p, off, m, init)->Ok_0;
        let ne = rr_head(p, o)->Ok_0;
        let (o2, f2) = ttl_scan(p, off, n, init)->Ok_0;
        assert(record_type_ttl(p, off, m) == Some((be16(p, ne) as u16, be32(p, ne + 4) as u32)));
        assert forall|i: nat| i < n implies (#[trigger] record_type_ttl(p, off, i)) is Some by {
            if i < m {
                assert(record_type_ttl(p, off, i) is Some);
            }
        }
        assert forall|i: nat| i < n && #[trigger] is_ttl_record(p, off, i) implies f2 <= record_ttl(p, off, i) by {
            if i < m {
                assert(f <= record_ttl(p, off, i));
            }
        }
        if f2 != init {
            if f2 != f {
                assert(is_ttl_record(p, off, m) && f2 == record_ttl(p, off, m));
            } else {
                let i = choose|i: nat| i < m && #[trigger] is_ttl_record(p, off, i) && f == record_ttl(p, off, i);
                assert(i < n && is_ttl_record(p, off, i) && f2 == record_ttl(p, off, i));
            }
        }
    }
}

/// The cache TTL is the smallest TTL of the records that are not OPT
/// records, capped at `max_ttl` and raised to `min_ttl`: every record of the
/// answer, authority and additional sections is read; the result is no larger
/// than any of those TTLs unless it is `min_ttl`; and it is `min_ttl`, the
/// starting value (`max_ttl`, or `failure_ttl` for a message without
/// records), or one of those TTLs.
pub proof fn law_min_ttl_smallest(p: Seq<u8>, min_ttl: u32, max_ttl: u32, failure_ttl: u32)
    requires
        min_ttl_spec(p, min_ttl, max_ttl, failure_ttl) is Ok,
    ensures
        question_name_end(p) matches Ok(q) && min_ttl_spec(p, min_ttl, max_ttl, failure_ttl) matches Ok(t)
            && {
            let n = (spec_ancount(p) + spec_nscount(p) + spec_arcount(p)) as nat;
            &&& forall|i: nat| i < n ==> (#[trigger] record_type_ttl(p, q + 4, i)) is Some
            &&& forall|i: nat| i < n && #[trigger] is_ttl_record(p, q + 4, i) ==> t <= record_ttl(p, q + 4, i) || t == min_ttl
            &&& t == min_ttl || (n > 0 && t == max_ttl) || (n == 0 && t == failure_ttl)
                || exists|i: nat| i < n && #[trigger] is_ttl_record(p, q + 4, i) && t == record_ttl(p, q + 4, i)
        },
{
    let q = question_name_end(p)->Ok_0;
    let n = (spec_ancount(p) + spec_nscount(p) + spec_arcount(p)) as nat;
    let init = if n > 0 { max_ttl } else { failure_ttl };
    lemma_ttl_scan_smallest(p, q + 4, n, init);
}

/// A name that ends at `e` ends there in any message at least as long that
/// holds the same bytes from its start to `e`.
pub proof fn lemma_name_frame(p: Seq<u8>, q: Seq<u8>, off: int, qlen: int, e: int)
    requires
        name_end_from(p, off, qlen) == Ok::<int, DnsError>(e),
        q.len() >= p.len(),
        forall|i: int| off <= i < e ==> q[i] == p[i],
    ensures
        name_end_from(q, off, qlen) == Ok::<int, DnsError>(e),
    decreases p.len() - off,
{
    lemma_name_end_from_bounds(p, off, qlen);
    assert(q[off] == p[off]);
    if p[off] < 0x40 && p[off] != 0 {
        lemma_name_frame(p, q, off + p[off] + 1, qlen + p[off] + 1, e);
    }
}

/// The fixed part of a record is read the same way in a message at least as
/// long that holds the same bytes of the record's name.
pub proof fn lemma_rr_head_frame(p: Seq<u8>, q: Seq<u8>, o: int, ne: int)
    requires
        rr_head(p, o) == Ok::<int, DnsError>(ne),
        q.len() >= p.len(),
        forall|i: int| o <= i < ne ==> q[i] == p[i],
    ensures
        rr_head(q, o) == Ok::<int, DnsError>(ne),
{
    lemma_name_frame(p, q, o, 0, ne);
}

/// The end of a traversal of `n` records, in a message at least as long that
/// holds the same bytes over the traversed records.
pub proof fn lemma_traverse_frame(p: Seq<u8>, q: Seq<u8>, off: int, n: nat, end: int)
    requires
        traverse_spec(p, off, n) == Ok::<int, DnsError>(end),
        q.len() >= p.len(),
        forall|i: int| off <= i < end ==> q[i] == p[i],
    ensures
        traverse_spec(q, off, n) == Ok::<int, DnsError>(end),
        off <= end,
    decreases n,
{
    if n > 0 {
        let o = traverse_spec(p, off, (n - 1) as nat)->Ok_0;
        let ne = rr_head(p, o)->Ok_0;
        lemma_skip_name_bounds(p, o);
        lemma_traverse_frame(p, q, off, (n - 1) as nat, o);
        lemma_rr_head_frame(p, q, o, ne);
        assert(q[ne + 8] == p[ne + 8]);
        assert(q[ne + 9] == p[ne + 9]);
    }
}

/// An OPT scan advances, and the OPT record it finds lies before where it stopped.
pub proof fn lemma_opt_scan_order(p: Seq<u8>, off: int, n: nat)
    ensures
        opt_scan(p, off, n).1 matches Ok(o) ==> off <= o,
        opt_scan(p, off, n).1 matches Ok(o) ==> (opt_scan(p, off, n).0 matches Some(pos) ==> off < pos && pos + 10 <= o),
    decreases n,
{
    if n > 0 {
        lemma_opt_scan_order(p, off, (n - 1) as nat);
        let prev = opt_scan(p, off, (n - 1) as nat);
        if prev.1 is Ok {
            lemma_skip_name_bounds(p, prev.1->Ok_0);
        }
    }
}

/// An OPT scan gives the same outcome in a message at least as long that holds
/// the same bytes over the scanned records, but for the two bytes at `w`: these
/// are the class of the OPT record found, or lie past the records.
pub proof fn lemma_opt_scan_frame(p: Seq<u8>, q: Seq<u8>, off: int, n: nat, end: int, w: int)
    requires
        opt_scan(p, off, n).1 == Ok::<int, DnsError>(end),
        q.len() >= p.len(),
        forall|i: int| off <= i < end && i != w && i != w + 1 ==> q[i] == p[i],
        opt_scan(p, off, n).0 matches Some(pos) ==> w == pos + 2,
        opt_scan(p, off, n).0 is None ==> w >= end,
    ensures
        opt_scan(q, off, n) == opt_scan(p, off, n),
    decreases n,
{
    lemma_opt_scan_order(p, off, n);
    if n > 0 {
        let prev = opt_scan(p, off, (n - 1) as nat);
        let o = prev.1->Ok_0;
        let ne = rr_head(p, o)->Ok_0;
        lemma_opt_scan_order(p, off, (n - 1) as nat);
        lemma_skip_name_bounds(p, o);
        lemma_opt_scan_frame(p, q, off, (n - 1) as nat, o, w);
        lemma_rr_head_frame(p, q, o, ne);
        assert(q[ne] == p[ne]);
        assert(q[ne + 1] == p[ne + 1]);
        assert(q[ne + 8] == p[ne + 8]);
        assert(q[ne + 9] == p[ne + 9]);
    }
}

/// Whether the additional records of a query end exactly at its end or hold an
/// OPT record (true as well when the records cannot be reached).
pub open spec fn records_fill_or_opt(p: Seq<u8>) -> bool {
    match question_name_end(p) {
        Ok(q) => match traverse_spec(p, q + 4, (spec_ancount(p) + spec_nscount(p)) as nat) {
            Ok(o) => {
                let scan = opt_scan(p, o, spec_arcount(p) as nat);
                scan.0 is Some || scan.1 == Ok::<int, DnsError>(p.len() as int)
            },
            Err(_) => true,
        },
        Err(_) => true,
    }
}

/// Setting the EDNS payload size again, to the same value, changes nothing:
/// the OPT record set or added the first time is found and already holds it.
/// Left out: queries without an OPT record that have bytes after their last
/// record, where the appended OPT record is not where the next scan looks.
pub proof fn law_set_edns_idempotent(p: Seq<u8>, size: u16)
    requires
        set_edns_max_payload_size_spec(p, size).1 is Ok,
        records_fill_or_opt(p),
    ensures
        set_edns_max_payload_size_spec(set_edns_max_payload_size_spec(p, size).0, size)
            == set_edns_max_payload_size_spec(p, size),
{
    let p2 = set_edns_max_payload_size_spec(p, size).0;
    let q = question_name_end(p)->Ok_0;
    let o = traverse_spec(p, q + 4, (spec_ancount(p) + spec_nscount(p)) as nat)->Ok_0;
    let scan = opt_scan(p, o, spec_arcount(p) as nat);
    let end = scan.1->Ok_0;
    lemma_skip_name_bounds(p, DNS_OFFSET_QUESTION as int);
    lemma_traverse_frame(p, p, q + 4, (spec_ancount(p) + spec_nscount(p)) as nat, o);
    lemma_opt_scan_order(p, o, spec_arcount(p) as nat);
    match scan.0 {
        Some(pos) => {
            let w = pos + 2;
            assert(p2 == put16(p, w, size));
            assert(p2.len() == p.len());
            assert forall|i: int| DNS_OFFSET_QUESTION <= i < q implies p2[i] == p[i] by {}
            lemma_name_frame(p, p2, DNS_OFFSET_QUESTION as int, 0, q);
            assert(question_name_end(p2) == question_name_end(p));
            lemma_traverse_frame(p, p2, q + 4, (spec_ancount(p) + spec_nscount(p)) as nat, o);
            lemma_opt_scan_frame(p, p2, o, spec_arcount(p) as nat, end, w);
            assert(put16(p2, w, size) =~= p2);
        },
        None => {
            let inc = arcount_inc_spec(p);
            assert(p2 == inc.0 + opt_rr(size));
            assert(end == p.len());
            assert forall|i: int| DNS_OFFSET_QUESTION <= i < p.len() implies p2[i] == p[i] by {}
            lemma_name_frame(p, p2, DNS_OFFSET_QUESTION as int, 0, q);
            assert(spec_qdcount(p2) == spec_qdcount(p));
            assert(spec_ancount(p2) == spec_ancount(p));
            assert(spec_nscount(p2) == spec_nscount(p));
            assert(spec_arcount(p2) == spec_arcount(p) + 1);
            assert(question_name_end(p2) == question_name_end(p));
            lemma_traverse_frame(p, p2, q + 4, (spec_ancount(p) + spec_nscount(p)) as nat, o);
            lemma_opt_scan_frame(p, p2, o, spec_arcount(p) as nat, end, end);
            let n2 = (spec_arcount(p) + 1) as nat;
            assert(opt_scan(p2, o, (n2 - 1) as nat) == scan);
            let len = p.len() as int;
            assert(p2[len] == 0);
            assert(name_end_from(p2, len, 0) == Ok::<int, DnsError>(len + 1));
            assert(rr_head(p2, len) == Ok::<int, DnsError>(len + 1));
            assert(be16(p2, len + 1) == DNS_TYPE_OPT);
            assert(rr_next(p2, len + 1) == Ok::<int, DnsError>(len + 11));
            assert(opt_scan(p2, o, n2) == (Some(len + 1), Ok::<int, DnsError>(len + 11)));
            assert(put16(p2, len + 3, size) =~= p2);
        },
    }
}

/// Setting the EDNS payload size either leaves the length and ARCOUNT of the
/// query as they were (an OPT record was there and now holds the size) or
/// appends one OPT record announcing the size and counts it in ARCOUNT.
pub proof fn law_set_edns_shape(p: Seq<u8>, size: u16)
    requires
        set_edns_max_payload_size_spec(p, size).1 is Ok,
    ensures
        ({
            let p2 = set_edns_max_payload_size_spec(p, size).0;
            ||| (p2.len() == p.len() && spec_arcount(p2) == spec_arcount(p))
            ||| (p2.len() == p.len() + 11 && spec_arcount(p2) == spec_arcount(p) + 1
                && p2.subrange(p.len() as int, p2.len() as int) == opt_rr(size))
        }),
{
    let p2 = set_edns_max_payload_size_spec(p, size).0;
    let q = question_name_end(p)->Ok_0;
    let o = traverse_spec(p, q + 4, (spec_ancount(p) + spec_nscount(p)) as nat)->Ok_0;
    let scan = opt_scan(p, o, spec_arcount(p) as nat);
    lemma_skip_name_bounds(p, DNS_OFFSET_QUESTION as int);
    lemma_traverse_frame(p, p, q + 4, (spec_ancount(p) + spec_nscount(p)) as nat, o);
    lemma_opt_scan_order(p, o, spec_arcount(p) as nat);
    lemma_opt_scan_found(p, o, spec_arcount(p) as nat);
    if scan.0 is None {
        let inc = arcount_inc_spec(p);
        assert(p2.subrange(p.len() as int, p2.len() as int) =~= opt_rr(size));
    }
}

/// When EDNS padding has to add the OPT record that holds the padding (ARCOUNT
/// grows by one), the message is kept but for ARCOUNT, and the record appended
/// right after it is an OPT record for the root announcing a UDP payload size
/// of `DNS_MAX_PACKET_SIZE` (4096) bytes, with zero extended response code,
/// version and flags; its data is the padding option (code 12), which runs to
/// the end of the message.
pub proof fn law_padding_added_opt(p: Seq<u8>)
    requires
        add_edns_padding_spec(p).1 is Ok,
        spec_arcount(add_edns_padding_spec(p).0) == spec_arcount(p) + 1,
    ensures
        ({
            let r = add_edns_padding_spec(p).0;
            let n = p.len() as int;
            &&& r.len() >= n + 15
            &&& r.subrange(0, 10) == p.subrange(0, 10)
            &&& r.subrange(12, n) == p.subrange(12, n)
            &&& r[n] == 0 && r[n + 1] == 0 && r[n + 2] == DNS_TYPE_OPT
            &&& r[n + 3] == (DNS_MAX_PACKET_SIZE / 256) as u8
            &&& r[n + 4] == (DNS_MAX_PACKET_SIZE % 256) as u8
            &&& r[n + 5] == 0 && r[n + 6] == 0 && r[n + 7] == 0 && r[n + 8] == 0
            &&& be16(r, n + 9) == r.len() - (n + 11)
            &&& r[n + 11] == 0 && r[n + 12] == 12
        }),
{
    let q = question_name_end(p)->Ok_0;
    let o = traverse_spec(p, q + 4, (spec_ancount(p) + spec_nscount(p)) as nat)->Ok_0;
    let scan = opt_scan(p, o, spec_arcount(p) as nat);
    lemma_skip_name_bounds(p, DNS_OFFSET_QUESTION as int);
    lemma_traverse_frame(p, p, q + 4, (spec_ancount(p) + spec_nscount(p)) as nat, o);
    lemma_opt_scan_order(p, o, spec_arcount(p) as nat);
    lemma_opt_scan_found(p, o, spec_arcount(p) as nat);
    let r = add_edns_padding_spec(p).0;
    let n = p.len() as int;
    if scan.0 is Some {
        let pos = scan.0->Some_0;
        assert(r == pad_edns_spec(p, pos).0);
        assert(r[10] == p[10] && r[11] == p[11]);
        assert(false);
    } else {
        let added = add_edns_section_spec(p, 4096);
        let a = added.0;
        assert(added.1 is Ok);
        assert(a == put16(p, 10, (spec_arcount(p) + 1) as u16) + opt_rr(4096));
        assert(r == pad_edns_spec(a, n + 1).0);
        let len = a.len() as int;
        let pad = padded_len_spec(len) - len;
        let rd = be16(a, n + 9);
        assert(a.len() == n + 11);
        assert(rd == 0);
        assert(r == put16(a, n + 9, (rd + 4 + pad) as u16) + padding_option(pad as nat));
        assert(padding_option(pad as nat).len() == 4 + pad);
        assert(r.len() == n + 15 + pad);
        assert(r.subrange(0, 10) =~= p.subrange(0, 10));
        assert(r.subrange(12, n) =~= p.subrange(12, n));
        assert(r[n + 11] == padding_option(pad as nat)[0]);
        assert(r[n + 12] == padding_option(pad as nat)[1]);
        let v = (4 + pad) as u16;
        assert(r[n + 9] == (v / 256) as u8 && r[n + 10] == (v % 256) as u8);
    }
}

/// EDNS padding keeps ARCOUNT, or raises it by one when it had to add the
/// OPT record that holds the padding.
pub proof fn law_padding_arcount(p: Seq<u8>)
    requires
        add_edns_padding_spec(p).1 is Ok,
    ensures
        spec_arcount(add_edns_padding_spec(p).0) == spec_arcount(p)
            || spec_arcount(add_edns_padding_spec(p).0) == spec_arcount(p) + 1,
{
    let q = question_name_end(p)->Ok_0;
    let o = traverse_spec(p, q + 4, (spec_ancount(p) + spec_nscount(p)) as nat)->Ok_0;
    let scan = opt_scan(p, o, spec_arcount(p) as nat);
    lemma_skip_name_bounds(p, DNS_OFFSET_QUESTION as int);
    lemma_traverse_frame(p, p, q + 4, (spec_ancount(p) + spec_nscount(p)) as nat, o);
    lemma_opt_scan_order(p, o, spec_arcount(p) as nat);
    lemma_opt_scan_found(p, o, spec_arcount(p) as nat);
}

} // verus!
