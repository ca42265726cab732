use dns::error::DnsError;
use dns::message::{
    DnsHeader, DnsPacket, DnsQuestion, DnsRecord, DnsRecordData, TYPE_A, TYPE_CNAME, TYPE_NS,
};
use dns::name::{decode_name, encode_dns_name, encode_name_bytes};
use dns::query::{build_query, build_query_with_id};

fn header_bytes(id: u16, qd: u16, an: u16, ns: u16, ar: u16) -> Vec<u8> {
    DnsHeader {
        id,
        flags: 0,
        num_questions: qd,
        num_answers: an,
        num_authorities: ns,
        num_additionals: ar,
    }
    .to_bytes()
}

fn record_bytes(name: &[u8], type_: u16, ttl: u32, rdata: &[u8]) -> Vec<u8> {
    let mut out = name.to_vec();
    out.extend_from_slice(&type_.to_be_bytes());
    out.extend_from_slice(&1u16.to_be_bytes());
    out.extend_from_slice(&ttl.to_be_bytes());
    out.extend_from_slice(&(rdata.len() as u16).to_be_bytes());
    out.extend_from_slice(rdata);
    out
}

#[test]
fn test_encode_domain_name() {
    let encoded = encode_dns_name("filedownload.lenovo.com").unwrap();
    let mut expected = vec![12u8];
    expected.extend_from_slice(b"filedownload");
    expected.push(6);
    expected.extend_from_slice(b"lenovo");
    expected.push(3);
    expected.extend_from_slice(b"com");
    expected.push(0);
    assert_eq!(encoded, expected);
}

#[test]
fn test_build_query() {
    let query = build_query("filedownload.lenovo.com", 6).unwrap();
    let id = u16::from_be_bytes([query[0], query[1]]);
    assert!(id < 65535);
    assert_eq!(&query[2..12], &[0x01, 0x00, 0x00, 0x01, 0x00, 0x00, 0x00, 0x00, 0x00, 0x00]);
    let name = encode_dns_name("filedownload.lenovo.com").unwrap();
    assert_eq!(&query[12..12 + name.len()], &name[..]);
    assert_eq!(&query[12 + name.len()..], &[0x00, 0x06, 0x00, 0x01]);
}

#[test]
fn test_to_bytes() {
    assert_eq!((7u8).to_be_bytes(), [0x07]);
    assert_eq!((7u16).to_be_bytes(), [0x00, 0x07]);
    let header = DnsHeader {
        id: 7,
        flags: 0,
        num_questions: 0,
        num_answers: 0,
        num_authorities: 0,
        num_additionals: 0,
    };
    assert_eq!(&header.to_bytes()[0..2], &[0x00, 0x07]);
}

#[test]
fn test_dnsheader_to_bytes() {
    let header = DnsHeader {
        id: 1314,
        num_questions: 1,
        flags: 1 << 8,
        num_additionals: 0,
        num_answers: 0,
        num_authorities: 0,
    };
    assert_eq!(
        header.to_bytes(),
        vec![0x05, 0x22, 0x01, 0x00, 0x00, 0x01, 0x00, 0x00, 0x00, 0x00, 0x00, 0x00]
    );
}

#[test]
fn encode_google_com_wire_bytes() {
    assert_eq!(
        encode_dns_name("google.com").unwrap(),
        vec![0x06, 0x67, 0x6F, 0x6F, 0x67, 0x6C, 0x65, 0x03, 0x63, 0x6F, 0x6D, 0x00]
    );
}

#[test]
fn encode_rejects_long_label() {
    let long = "a".repeat(64);
    assert_eq!(encode_dns_name(&long), Err(DnsError::FormatError));
    let fits = "b".repeat(63);
    let encoded = encode_dns_name(&fits).unwrap();
    assert_eq!(encoded.len(), 65);
    assert_eq!(encoded[0], 63);
    assert_eq!(encode_name_bytes(format!("x.{}.y", long).as_bytes()), Err(DnsError::FormatError));
}

#[test]
fn decode_plain_name() {
    let mut buf = vec![0xAAu8, 0xBB];
    buf.extend(encode_dns_name("www.example.com").unwrap());
    buf.push(0xFF);
    let (len, name) = decode_name(&buf, 2).unwrap();
    assert_eq!(len, 17);
    assert_eq!(name, b"www.example.com".to_vec());
}

#[test]
fn question_round_trip() {
    let question = DnsQuestion { name: b"mail.example.org".to_vec(), type_: 15, class: 1 };
    let mut buf = vec![1u8, 2, 3];
    buf.extend(question.to_bytes().unwrap());
    buf.extend_from_slice(&[9, 9]);
    let (len, decoded) = DnsQuestion::parse(&buf, 3).unwrap();
    assert_eq!(len, buf.len() - 5);
    assert_eq!(decoded.name, question.name);
    assert_eq!(decoded.type_, 15);
    assert_eq!(decoded.class, 1);
}

#[test]
fn question_too_short_is_format_error() {
    let mut buf = encode_dns_name("a.b").unwrap();
    buf.extend_from_slice(&[0, 1, 0]);
    assert!(matches!(DnsQuestion::parse(&buf, 0), Err(DnsError::FormatError)));
}

#[test]
fn header_round_trip() {
    let header = DnsHeader {
        id: 0xFFFF,
        flags: 0x8180,
        num_questions: 1,
        num_answers: 0xABCD,
        num_authorities: 0x0100,
        num_additionals: 0x00FF,
    };
    let mut bytes = header.to_bytes();
    bytes.push(0x42);
    assert_eq!(DnsHeader::parse(&bytes), Ok(header));
}

#[test]
fn header_too_short() {
    assert_eq!(DnsHeader::parse(&[0u8; 11]), Err(DnsError::FormatError));
}

#[test]
fn pointer_decodes_like_target() {
    let mut buf = vec![0u8; 12];
    buf.extend(encode_dns_name("example.com").unwrap());
    let pointer_at = buf.len();
    buf.extend_from_slice(&[0xC0, 12]);
    let direct = decode_name(&buf, 12).unwrap();
    let via_pointer = decode_name(&buf, pointer_at).unwrap();
    assert_eq!(via_pointer.1, direct.1);
    assert_eq!(via_pointer.0, 2);
}

#[test]
fn labels_then_pointer() {
    let mut buf = vec![0u8; 12];
    buf.extend(encode_dns_name("example.com").unwrap());
    let start = buf.len();
    buf.extend_from_slice(&[3, b'w', b'w', b'w', 0xC0, 12]);
    assert_eq!(decode_name(&buf, start), Ok((6, b"www.example.com".to_vec())));
}

#[test]
fn pointer_to_itself_is_cycle() {
    let buf = vec![0u8, 0, 0xC0, 2];
    assert_eq!(decode_name(&buf, 2), Err(DnsError::CompressionCycleError));
}

#[test]
fn pointer_forward_is_cycle() {
    let buf = vec![0xC0u8, 5, 0, 0, 0, 1, b'a', 0];
    assert_eq!(decode_name(&buf, 0), Err(DnsError::CompressionCycleError));
}

#[test]
fn pointer_into_own_labels_is_cycle() {
    let buf = vec![1u8, b'a', 0xC0, 0];
    assert_eq!(decode_name(&buf, 0), Err(DnsError::CompressionCycleError));
}

#[test]
fn reserved_label_bits_are_format_errors() {
    assert_eq!(decode_name(&[0x40u8, 0], 0), Err(DnsError::FormatError));
    assert_eq!(decode_name(&[0x80u8, 0], 0), Err(DnsError::FormatError));
}

#[test]
fn truncated_names_are_format_errors() {
    assert_eq!(decode_name(&[3u8, b'a', b'b'], 0), Err(DnsError::FormatError));
    assert_eq!(decode_name(&[3u8, b'a', b'b', b'c'], 0), Err(DnsError::FormatError));
    assert_eq!(decode_name(&[0xC0u8], 0), Err(DnsError::FormatError));
    assert_eq!(decode_name(&[], 0), Err(DnsError::FormatError));
}

#[test]
fn a_record_data_is_address() {
    let name = encode_dns_name("example.com").unwrap();
    let buf = record_bytes(&name, TYPE_A, 300, &[93, 184, 216, 34]);
    let (len, record) = DnsRecord::parse(&buf, 0).unwrap();
    assert_eq!(len, buf.len());
    assert_eq!(record.name, b"example.com".to_vec());
    assert_eq!(record.ttl, 300);
    assert_eq!(record.class, 1);
    assert!(matches!(record.data, DnsRecordData::Ipv4Addr([93, 184, 216, 34])));
}

#[test]
fn a_record_with_wrong_length_is_format_error() {
    let name = encode_dns_name("example.com").unwrap();
    let buf = record_bytes(&name, TYPE_A, 300, &[1, 2, 3, 4, 5]);
    assert!(matches!(DnsRecord::parse(&buf, 0), Err(DnsError::FormatError)));
}

#[test]
fn ns_and_cname_data_are_names() {
    let mut buf = vec![0u8; 12];
    buf.extend(encode_dns_name("gtld-servers.net").unwrap());
    let record_at = buf.len();
    let owner = encode_dns_name("com").unwrap();
    let rdata = [1u8, b'a', 0xC0, 12];
    buf.extend(record_bytes(&owner, TYPE_NS, 172800, &rdata));
    let (len, record) = DnsRecord::parse(&buf, record_at).unwrap();
    assert_eq!(len, buf.len() - record_at);
    match record.data {
        DnsRecordData::Name(n) => assert_eq!(n, b"a.gtld-servers.net".to_vec()),
        other => panic!("unexpected data {:?}", other),
    }
    let target = encode_dns_name("cdn.example.net").unwrap();
    let cname = record_bytes(&owner, TYPE_CNAME, 60, &target);
    match DnsRecord::parse(&cname, 0).unwrap().1.data {
        DnsRecordData::Name(n) => assert_eq!(n, b"cdn.example.net".to_vec()),
        other => panic!("unexpected data {:?}", other),
    }
}

#[test]
fn other_types_keep_raw_bytes() {
    let name = encode_dns_name("example.com").unwrap();
    let rdata = [0u8, 10, 4, b'm', b'a', b'i', b'l', 0xC0, 0];
    let mut buf = record_bytes(&name, 15, 10, &rdata);
    buf.extend_from_slice(&[7, 7]);
    let (len, record) = DnsRecord::parse(&buf, 0).unwrap();
    assert_eq!(len, buf.len() - 2);
    match record.data {
        DnsRecordData::Data(d) => assert_eq!(d, rdata.to_vec()),
        other => panic!("unexpected data {:?}", other),
    }
}

#[test]
fn rdata_past_end_is_format_error() {
    let name = encode_dns_name("example.com").unwrap();
    let mut buf = record_bytes(&name, 16, 10, &[1, 2, 3]);
    buf.pop();
    assert!(matches!(DnsRecord::parse(&buf, 0), Err(DnsError::FormatError)));
}

#[test]
fn packet_sections_in_order() {
    let mut buf = header_bytes(0x1234, 1, 1, 1, 1);
    let question = DnsQuestion { name: b"example.com".to_vec(), type_: TYPE_A, class: 1 };
    buf.extend(question.to_bytes().unwrap());
    let name = encode_dns_name("example.com").unwrap();
    buf.extend(record_bytes(&name, TYPE_A, 1, &[10, 0, 0, 1]));
    buf.extend(record_bytes(&name, TYPE_NS, 2, &encode_dns_name("ns.example.com").unwrap()));
    buf.extend(record_bytes(&name, TYPE_A, 3, &[10, 0, 0, 3]));
    buf.extend_from_slice(&[0u8; 20]);
    let packet = DnsPacket::parse(&buf).unwrap();
    assert_eq!(packet.header.id, 0x1234);
    assert_eq!(packet.questions.len(), 1);
    assert_eq!(packet.answers.len(), 1);
    assert_eq!(packet.authorities.len(), 1);
    assert_eq!(packet.additionals.len(), 1);
    assert_eq!(packet.answers[0].ttl, 1);
    assert_eq!(packet.authorities[0].ttl, 2);
    assert_eq!(packet.additionals[0].ttl, 3);
}

#[test]
fn packet_count_beyond_data_is_format_error() {
    let mut buf = header_bytes(1, 0, 2, 0, 0);
    let name = encode_dns_name("example.com").unwrap();
    buf.extend(record_bytes(&name, TYPE_A, 1, &[10, 0, 0, 1]));
    assert!(matches!(DnsPacket::parse(&buf), Err(DnsError::FormatError)));
}

#[test]
fn query_with_id_is_exact() {
    let query = build_query_with_id(b"google.com", TYPE_A, 0xBEEF).unwrap();
    let mut expected = vec![0xBE, 0xEF, 0x01, 0x00, 0x00, 0x01, 0, 0, 0, 0, 0, 0];
    expected.extend(encode_dns_name("google.com").unwrap());
    expected.extend_from_slice(&[0x00, 0x01, 0x00, 0x01]);
    assert_eq!(query, expected);
}

#[test]
fn queries_parse_back() {
    let query = build_query("example.org", TYPE_NS).unwrap();
    let packet = DnsPacket::parse(&query).unwrap();
    assert_eq!(packet.header.flags, 0x0100);
    assert_eq!(packet.questions[0].name, b"example.org".to_vec());
    assert_eq!(packet.questions[0].type_, TYPE_NS);
    assert_eq!(packet.questions[0].class, 1);
}
