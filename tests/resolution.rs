use dns::error::DnsError;
use dns::message::{DnsHeader, DnsPacket, TYPE_A, TYPE_CNAME, TYPE_NS};
use dns::name::encode_dns_name;
use dns::resolver::{decide, Outcome, Resolver, Step, DEFAULT_MAX_STEPS, MAX_RETRIES};

struct Rr {
    owner: &'static str,
    type_: u16,
    rdata: Vec<u8>,
}

fn a(owner: &'static str, address: [u8; 4]) -> Rr {
    Rr { owner, type_: TYPE_A, rdata: address.to_vec() }
}

fn named(owner: &'static str, type_: u16, target: &str) -> Rr {
    Rr { owner, type_, rdata: encode_dns_name(target).unwrap() }
}

fn response(id: u16, qname: &str, answers: &[Rr], authorities: &[Rr], additionals: &[Rr]) -> Vec<u8> {
    let mut out = DnsHeader {
        id,
        flags: 0x8000,
        num_questions: 1,
        num_answers: answers.len() as u16,
        num_authorities: authorities.len() as u16,
        num_additionals: additionals.len() as u16,
    }
    .to_bytes();
    out.extend(encode_dns_name(qname).unwrap());
    out.extend_from_slice(&[0, 1, 0, 1]);
    for rr in answers.iter().chain(authorities).chain(additionals) {
        out.extend(encode_dns_name(rr.owner).unwrap());
        out.extend_from_slice(&rr.type_.to_be_bytes());
        out.extend_from_slice(&[0, 1, 0, 0, 0x0E, 0x10]);
        out.extend_from_slice(&(rr.rdata.len() as u16).to_be_bytes());
        out.extend_from_slice(&rr.rdata);
    }
    out
}

fn query_id(query: &[u8]) -> u16 {
    u16::from_be_bytes([query[0], query[1]])
}

#[test]
fn glue_redirects_without_nested_lookup() {
    let mut resolver = Resolver::new("google.com", TYPE_A, DEFAULT_MAX_STEPS);
    let (server, query) = resolver.next_query().unwrap();
    assert_eq!(server, [198, 41, 0, 4]);
    let reply = response(
        query_id(&query),
        "google.com",
        &[],
        &[named("com", TYPE_NS, "a.gtld-servers.net")],
        &[a("a.gtld-servers.net", [192, 5, 6, 30])],
    );
    assert_eq!(resolver.handle_response(&reply), Outcome::Continue);
    assert_eq!(resolver.frames.len(), 1);
    assert_eq!(resolver.frames[0].name, b"google.com".to_vec());
    let (server, query) = resolver.next_query().unwrap();
    assert_eq!(server, [192, 5, 6, 30]);
    assert_eq!(DnsPacket::parse(&query).unwrap().questions[0].name, b"google.com".to_vec());
}

#[test]
fn cname_is_followed_from_the_root() {
    let mut resolver = Resolver::new("example.com", TYPE_A, DEFAULT_MAX_STEPS);
    let (_, query) = resolver.next_query().unwrap();
    let reply = response(
        query_id(&query),
        "example.com",
        &[named("example.com", TYPE_CNAME, "cdn.example.net")],
        &[],
        &[],
    );
    assert_eq!(resolver.handle_response(&reply), Outcome::Continue);
    let (server, query) = resolver.next_query().unwrap();
    assert_eq!(server, [198, 41, 0, 4]);
    let asked = DnsPacket::parse(&query).unwrap();
    assert_eq!(asked.questions[0].name, b"cdn.example.net".to_vec());
    assert_eq!(asked.questions[0].type_, TYPE_A);
    let reply = response(
        query_id(&query),
        "cdn.example.net",
        &[a("cdn.example.net", [93, 184, 216, 34])],
        &[],
        &[],
    );
    assert_eq!(resolver.handle_response(&reply), Outcome::Resolved([93, 184, 216, 34]));
}

#[test]
fn endless_referrals_exceed_the_bound() {
    let max_steps = 10;
    let mut resolver = Resolver::new("loop.example", TYPE_A, max_steps);
    let mut sent = 0;
    let mut k = 0;
    let error = loop {
        match resolver.next_query() {
            Ok((_, query)) => {
                sent += 1;
                k += 1;
                let ns = format!("ns{}.unresolvable.example", k);
                let reply = response(
                    query_id(&query),
                    "loop.example",
                    &[],
                    &[Rr { owner: "example", type_: TYPE_NS, rdata: encode_dns_name(&ns).unwrap() }],
                    &[],
                );
                assert_eq!(resolver.handle_response(&reply), Outcome::Continue);
            }
            Err(e) => break e,
        }
    };
    assert_eq!(error, DnsError::DepthExceededError);
    assert_eq!(sent, max_steps);
    assert_eq!(resolver.frames.len(), max_steps + 1);
}

#[test]
fn nameserver_address_is_resolved_first() {
    let mut resolver = Resolver::new("example.org", TYPE_A, DEFAULT_MAX_STEPS);
    let (_, query) = resolver.next_query().unwrap();
    let reply = response(
        query_id(&query),
        "example.org",
        &[],
        &[named("org", TYPE_NS, "ns.tld.example")],
        &[],
    );
    assert_eq!(resolver.handle_response(&reply), Outcome::Continue);
    assert_eq!(resolver.frames.len(), 2);
    let (server, query) = resolver.next_query().unwrap();
    assert_eq!(server, [198, 41, 0, 4]);
    let reply = response(
        query_id(&query),
        "ns.tld.example",
        &[a("ns.tld.example", [10, 1, 2, 3])],
        &[],
        &[],
    );
    assert_eq!(resolver.handle_response(&reply), Outcome::Continue);
    assert_eq!(resolver.frames.len(), 1);
    let (server, query) = resolver.next_query().unwrap();
    assert_eq!(server, [10, 1, 2, 3]);
    let reply = response(query_id(&query), "example.org", &[a("example.org", [1, 2, 3, 4])], &[], &[]);
    assert_eq!(resolver.handle_response(&reply), Outcome::Resolved([1, 2, 3, 4]));
}

#[test]
fn mismatched_id_is_ignored() {
    let mut resolver = Resolver::new("example.com", TYPE_A, DEFAULT_MAX_STEPS);
    let (_, query) = resolver.next_query().unwrap();
    let id = query_id(&query);
    let reply = response(id.wrapping_add(1), "example.com", &[a("example.com", [1, 1, 1, 1])], &[], &[]);
    assert_eq!(resolver.handle_response(&reply), Outcome::Continue);
    assert_eq!(resolver.frames.len(), 1);
    assert_eq!(resolver.steps_left, DEFAULT_MAX_STEPS - 1);
}

#[test]
fn no_referral_is_protocol_error() {
    let mut resolver = Resolver::new("example.com", TYPE_A, DEFAULT_MAX_STEPS);
    let (_, query) = resolver.next_query().unwrap();
    let reply = response(query_id(&query), "example.com", &[], &[], &[]);
    assert_eq!(resolver.handle_response(&reply), Outcome::Failed(DnsError::ProtocolError));
}

#[test]
fn malformed_response_is_format_error() {
    let mut resolver = Resolver::new("example.com", TYPE_A, DEFAULT_MAX_STEPS);
    let _ = resolver.next_query().unwrap();
    assert_eq!(resolver.handle_response(&[0u8; 5]), Outcome::Failed(DnsError::FormatError));
}

#[test]
fn transport_errors_are_retried_then_reported() {
    let mut resolver = Resolver::new("example.com", TYPE_A, DEFAULT_MAX_STEPS);
    for _ in 0..MAX_RETRIES {
        assert_eq!(resolver.handle_transport_error(DnsError::TimeoutError), Outcome::Continue);
    }
    assert_eq!(
        resolver.handle_transport_error(DnsError::TimeoutError),
        Outcome::Failed(DnsError::TimeoutError)
    );
}

#[test]
fn name_with_long_label_cannot_be_queried() {
    let long = format!("{}.com", "x".repeat(70));
    let mut resolver = Resolver::new(&long, TYPE_A, DEFAULT_MAX_STEPS);
    assert_eq!(resolver.next_query(), Err(DnsError::FormatError));
}

#[test]
fn decide_prefers_answer_then_alias_then_glue() {
    let reply = response(
        1,
        "example.com",
        &[named("example.com", TYPE_CNAME, "alias.example.net"), a("example.com", [5, 6, 7, 8])],
        &[named("com", TYPE_NS, "a.ns.example")],
        &[a("other.example", [9, 9, 9, 9]), a("a.ns.example", [4, 4, 4, 4])],
    );
    let packet = DnsPacket::parse(&reply).unwrap();
    assert!(matches!(decide(&packet, TYPE_A), Step::Answer([5, 6, 7, 8])));
    match decide(&packet, TYPE_NS) {
        Step::FollowCname(n) => assert_eq!(n, b"alias.example.net".to_vec()),
        other => panic!("unexpected step {:?}", other),
    }
    let referral = response(
        1,
        "example.com",
        &[],
        &[named("com", TYPE_NS, "a.ns.example")],
        &[a("other.example", [9, 9, 9, 9]), a("a.ns.example", [4, 4, 4, 4])],
    );
    match decide(&DnsPacket::parse(&referral).unwrap(), TYPE_A) {
        Step::UseGlue(n, address) => {
            assert_eq!(n, b"a.ns.example".to_vec());
            assert_eq!(address, [4, 4, 4, 4]);
        }
        other => panic!("unexpected step {:?}", other),
    }
}

#[test]
fn depth_bound_zero_refuses_at_once() {
    let mut resolver = Resolver::new("example.com", TYPE_A, 0);
    assert_eq!(resolver.next_query(), Err(DnsError::DepthExceededError));
}

#[test]
fn finished_resolution_asks_nothing_more() {
    let mut resolver = Resolver::new("example.com", TYPE_A, DEFAULT_MAX_STEPS);
    let (_, query) = resolver.next_query().unwrap();
    let reply = response(query_id(&query), "example.com", &[a("example.com", [8, 8, 4, 4])], &[], &[]);
    assert_eq!(resolver.handle_response(&reply), Outcome::Resolved([8, 8, 4, 4]));
    assert!(resolver.frames.is_empty());
    assert_eq!(resolver.next_query(), Err(DnsError::ProtocolError));
    assert_eq!(resolver.handle_response(&reply), Outcome::Failed(DnsError::ProtocolError));
}
