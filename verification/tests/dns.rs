//! DNS messages: queries are built within the RFC 1035 bounds, compression
//! pointers are bounded and go backwards only, and a response is checked
//! against the question asked.

use pelorus::net::dns::{build_query, parse_response, read_name, Address, DnsError, RecordType};


#[test]
fn a_query_round_trips_its_name() {
    let query = build_query("example.com", RecordType::A).expect("a valid query");
    let (name, _) = read_name(&query, 12).expect("the name is at offset 12");
    assert_eq!(name, "example.com");
}

#[test]
fn a_name_that_is_too_long_is_refused() {
    let long = format!("{}.com", "a".repeat(64));
    assert_eq!(
        build_query(&long, RecordType::A),
        Err(DnsError::TooLarge("label"))
    );
    let many = vec!["ab"; 100].join(".");
    assert_eq!(
        build_query(&many, RecordType::A),
        Err(DnsError::TooLarge("name"))
    );
}

#[test]
fn a_unicode_name_is_refused_rather_than_encoded() {
    assert!(build_query("exämple.com", RecordType::A).is_err());
}

/// The classic denial of service: a pointer to itself. A naive parser
/// loops here forever on twenty bytes an attacker writes.
#[test]
fn a_self_referential_pointer_terminates() {
    // Offset 12 holds a pointer to offset 12.
    let mut message = vec![0u8; 12];
    message.extend_from_slice(&[0xc0, 0x0c]);
    assert_eq!(read_name(&message, 12), Err(DnsError::BadPointer));
}

#[test]
fn a_forward_pointer_is_refused() {
    let mut message = vec![0u8; 12];
    // At offset 12, a pointer forwards to 20.
    message.extend_from_slice(&[0xc0, 0x14]);
    message.extend_from_slice(&[0u8; 8]);
    assert_eq!(read_name(&message, 12), Err(DnsError::BadPointer));
}

#[test]
fn a_chain_of_pointers_is_bounded() {
    // A ladder of backwards pointers, each legal on its own.
    let mut message = vec![0u8; 4];
    for index in 0..64 {
        let target = 2 + index * 2;
        message.extend_from_slice(&[0xc0 | ((target >> 8) as u8 & 0x3f), target as u8]);
    }
    let start = message.len() - 2;
    assert_eq!(read_name(&message, start), Err(DnsError::BadPointer));
}

#[test]
fn a_truncated_message_is_refused_rather_than_read_past() {
    assert_eq!(
        parse_response(&[], "example.com", RecordType::A),
        Err(DnsError::Truncated)
    );
    assert_eq!(
        parse_response(&[0u8; 5], "example.com", RecordType::A),
        Err(DnsError::Truncated)
    );
}

/// Accepting an answer for a name nobody asked about is how a resolver
/// poisons a cache.
#[test]
fn a_response_answering_a_different_question_is_refused() {
    let mut message = build_query("evil.example", RecordType::A).expect("query");
    // Mark it as a response with one answer.
    if let Some(slot) = message.get_mut(2) {
        *slot = 0x81;
    }
    assert_eq!(
        parse_response(&message, "good.example", RecordType::A),
        Err(DnsError::WrongQuestion)
    );
}

#[test]
fn a_server_failure_is_reported_rather_than_read_as_empty() {
    let mut message = build_query("example.com", RecordType::A).expect("query");
    if let Some(slot) = message.get_mut(3) {
        *slot = 0x03; // NXDOMAIN
    }
    assert_eq!(
        parse_response(&message, "example.com", RecordType::A),
        Err(DnsError::ServerFailure(3))
    );
}

#[test]
fn an_a_record_is_read() {
    let mut message = build_query("example.com", RecordType::A).expect("query");
    if let Some(slot) = message.get_mut(2) {
        *slot = 0x81;
    }
    if let Some(slot) = message.get_mut(7) {
        *slot = 1; // one answer
    }
    // Answer: pointer to the question name, type A, class IN, ttl, 4 bytes.
    message.extend_from_slice(&[0xc0, 0x0c]);
    message.extend_from_slice(&1u16.to_be_bytes());
    message.extend_from_slice(&1u16.to_be_bytes());
    message.extend_from_slice(&300u32.to_be_bytes());
    message.extend_from_slice(&4u16.to_be_bytes());
    message.extend_from_slice(&[192, 0, 2, 1]);

    let addresses = parse_response(&message, "example.com", RecordType::A).expect("parsed");
    assert_eq!(addresses, vec![Address::V4([192, 0, 2, 1])]);
}

#[test]
fn a_label_that_is_not_utf8_is_read_with_replacements() {
    let message = [3u8, b'a', 0xff, b'b', 3, b'c', b'o', b'm', 0];
    let (name, end) = read_name(&message, 0).expect("a well-formed name");
    assert_eq!(name, "a\u{fffd}b.com");
    assert_eq!(end, message.len());
}
