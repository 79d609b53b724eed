use transocks::codec::{encode_parts, CodecError};
use transocks::dns::{dns_shape_accepted, resolve_dns_request, DnsAction, DNS_ANSWER_TTL, QTYPE_AAAA};
use transocks::query::{parse_query_name, query_targets};
use transocks::socks5::{
    bind_addr_len, choose_server, socks5_greeting, socks5_request, validate_connect_reply,
    validate_method_selection, Socks5Target, SocksError,
};
use transocks::splice::pump_chunks;

fn encode_name(name: &[u8]) -> Result<Vec<u8>, CodecError> {
    let q = parse_query_name(&name.to_vec())?;
    let (target, upstream) = query_targets(&q).expect("name needs no resolution");
    encode_parts(&target, &upstream)
}

#[test]
fn socks5_handshake_bytes() {
    assert_eq!(socks5_greeting(), vec![5, 1, 0]);
    let req = socks5_request(&Socks5Target::IP4(0x01020304, 80));
    assert_eq!(req, vec![5, 1, 0, 1, 1, 2, 3, 4, 0, 0x50]);
}

#[test]
fn socks5_request_domain_and_ipv6() {
    let req = socks5_request(&Socks5Target::Domain(b"host".to_vec(), 443));
    assert_eq!(req, vec![5, 1, 0, 3, 4, b'h', b'o', b's', b't', 1, 0xbb]);
    let req = socks5_request(&Socks5Target::IP6(vec![0xaa; 16], 53));
    let mut expected = vec![5, 1, 0, 4];
    expected.extend_from_slice(&[0xaa; 16]);
    expected.extend_from_slice(&[0, 53]);
    assert_eq!(req, expected);
}

#[test]
fn socks5_reply_validation() {
    assert_eq!(validate_method_selection(5, 0), Ok(()));
    assert_eq!(
        validate_method_selection(4, 0),
        Err(SocksError::UnexpectedVersion)
    );
    assert_eq!(
        validate_method_selection(5, 2),
        Err(SocksError::AuthenticationNotSupported)
    );
    assert_eq!(validate_connect_reply(5, 0), Ok(()));
    assert_eq!(
        validate_connect_reply(6, 0),
        Err(SocksError::UnexpectedVersion)
    );
    assert_eq!(validate_connect_reply(5, 4), Err(SocksError::ServerError(4)));
}

#[test]
fn socks5_bind_addr_drain() {
    assert_eq!(bind_addr_len(1, 0), Ok(6));
    assert_eq!(bind_addr_len(4, 0), Ok(18));
    assert_eq!(bind_addr_len(3, 9), Ok(11));
    assert_eq!(bind_addr_len(2, 0), Err(SocksError::UnexpectedAddressType));
}

#[test]
fn default_upstream_substitution() {
    let configured = Socks5Target::Domain(b"socks.rg".to_vec(), 1080);
    let decoded_default = Socks5Target::IP4(0, 0);
    let decoded_explicit = Socks5Target::IP4(0x01020304, 9050);
    assert_eq!(choose_server(&decoded_default, &configured), configured);
    assert_eq!(
        choose_server(&decoded_explicit, &configured),
        decoded_explicit
    );
}

#[test]
fn splice_delivers_bytes_in_order() {
    let chunks = vec![vec![1u8, 2, 3], vec![4, 5], vec![6]];
    assert_eq!(pump_chunks(&chunks), vec![1, 2, 3, 4, 5, 6]);
}

#[test]
fn splice_stops_at_eof() {
    let chunks = vec![vec![1u8, 2], vec![], vec![3]];
    assert_eq!(pump_chunks(&chunks), vec![1, 2]);
    assert_eq!(pump_chunks(&Vec::new()), Vec::<u8>::new());
}

#[test]
fn dns_refuses_malformed_shapes() {
    // two questions
    let enc = encode_name(b"1.2.3.4.s---t.");
    assert_eq!(resolve_dns_request(true, 2, QTYPE_AAAA, enc), DnsAction::Refuse);
    // not a standard query
    let enc = encode_name(b"1.2.3.4.s---t.");
    assert_eq!(resolve_dns_request(false, 1, QTYPE_AAAA, enc), DnsAction::Refuse);
    assert!(dns_shape_accepted(true, 1));
    assert!(!dns_shape_accepted(true, 0));
}

#[test]
fn dns_answers_aaaa_with_synthetic_address() {
    let enc = encode_name(b"1.2.3.4.s---t.");
    let action = resolve_dns_request(true, 1, QTYPE_AAAA, enc);
    let mut expected = vec![0xfc, 1, 2, 3, 4];
    expected.resize(16, 0);
    assert_eq!(action, DnsAction::Answer(expected));
    assert_eq!(DNS_ANSWER_TTL, 15);
}

#[test]
fn dns_a_question_gets_no_answer() {
    let enc = encode_name(b"1.2.3.4.s---t.");
    assert_eq!(resolve_dns_request(true, 1, 1, enc), DnsAction::NoAnswer);
}

#[test]
fn dns_unencodable_name_is_nxdomain() {
    let enc = encode_name(b"bad!.s---t.");
    assert!(enc.is_err());
    assert_eq!(resolve_dns_request(true, 1, QTYPE_AAAA, enc), DnsAction::NxDomain);
}
