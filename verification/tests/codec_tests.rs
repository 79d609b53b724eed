use transocks::codec::{decode_addr, encode_parts, CodecError};
use transocks::huffman::{build_huffman_tree, tokenize_domain, DomainCode};
use transocks::query::{parse_query_name, query_targets, HostPart};
use transocks::socks5::Socks5Target;

fn encode_name(name: &[u8]) -> Result<Vec<u8>, CodecError> {
    let q = parse_query_name(&name.to_vec())?;
    let (target, upstream) = query_targets(&q).expect("name needs no resolution");
    encode_parts(&target, &upstream)
}

#[test]
fn s1_encode_ipv4_target() {
    let enc = encode_name(b"1.2.3.4.s---t.").unwrap();
    let mut expected = vec![0xfc, 0x01, 0x02, 0x03, 0x04];
    expected.resize(16, 0);
    assert_eq!(enc, expected);
}

#[test]
fn s1_decode_ipv4_target() {
    let enc = encode_name(b"1.2.3.4.s---t.").unwrap();
    let da = decode_addr(&enc, 80).unwrap();
    assert_eq!(da.target, Socks5Target::IP4(0x01020304, 80));
    assert_eq!(da.server, Socks5Target::IP4(0, 0));
    assert!(da.server.is_default());
}

#[test]
fn s2_domain_round_trip() {
    let enc = encode_name(b"example.com.s---t.").unwrap();
    assert_eq!(enc.len(), 16);
    // 7-bit prefix plus the domain discriminator bit
    assert_eq!(enc[0], 0xfd);
    let da = decode_addr(&enc, 443).unwrap();
    assert_eq!(da.target, Socks5Target::Domain(b"example.com".to_vec(), 443));
    assert_eq!(da.server, Socks5Target::IP4(0, 0));
}

#[test]
fn s3_explicit_upstream_tail() {
    let enc = encode_name(b"a.s---t.1.2.3.4.s---t.1080.s---t.").unwrap();
    // prefix 1111110, discriminator 1, 'a' = 00001, End = 00000, upstream bit 0
    assert_eq!(&enc[0..3], &[0xfd, 0x08, 0x00]);
    assert_eq!(&enc[10..16], &[0x01, 0x02, 0x03, 0x04, 0x04, 0x38]);
    let da = decode_addr(&enc, 80).unwrap();
    assert_eq!(da.target, Socks5Target::Domain(b"a".to_vec(), 80));
    assert_eq!(da.server, Socks5Target::IP4(0x01020304, 1080));
}

#[test]
fn domain_upstream_round_trip() {
    let enc = encode_name(b"example.com.s---t.proxy.net.s---t.3128.s---t.").unwrap();
    let da = decode_addr(&enc, 8080).unwrap();
    assert_eq!(da.target, Socks5Target::Domain(b"example.com".to_vec(), 8080));
    assert_eq!(da.server, Socks5Target::Domain(b"proxy.net".to_vec(), 3128));
}

#[test]
fn prefix_constant_on_every_success() {
    for name in [
        b"1.2.3.4.s---t.".as_slice(),
        b"example.com.s---t.",
        b"a.s---t.1.2.3.4.s---t.1080.s---t.",
        b"www.x.com.s---t.",
        b"a-b_c.d.s---t.9.9.9.9.s---t.1.s---t.",
    ] {
        let enc = encode_name(name).unwrap();
        assert_eq!(enc[0] >> 1, 0x7e, "first 7 bits must be 1111110");
    }
}

#[test]
fn huffman_codes_are_prefix_free() {
    let table = build_huffman_tree();
    assert_eq!(table.len(), 47);
    for i in 0..47 {
        for j in 0..47 {
            if i != j {
                let a = &table[i].1;
                let b = &table[j].1;
                assert!(
                    !(a.len() <= b.len() && &b[..a.len()] == a.as_slice()),
                    "code {} is a prefix of code {}",
                    i,
                    j
                );
            }
        }
    }
}

#[test]
fn huffman_table_contents() {
    let table = build_huffman_tree();
    assert_eq!(table[0].0, DomainCode::End);
    assert_eq!(table[0].1, vec![0, 0, 0, 0, 0]);
    assert_eq!(table[1].0, DomainCode::Char(b'a'));
    assert_eq!(table[1].1, vec![0, 0, 0, 0, 1]);
    assert_eq!(table[26].0, DomainCode::Char(b'z'));
    assert_eq!(table[27].0, DomainCode::Char(b'.'));
    assert_eq!(table[39].0, DomainCode::Char(b'_'));
    // first composite: 31 + 9, coded as the 11111 escape then 1001
    assert_eq!(table[40].0, DomainCode::Composite(0));
    assert_eq!(table[40].1, vec![1, 1, 1, 1, 1, 1, 0, 0, 1]);
    assert_eq!(table[46].0, DomainCode::Composite(6));
    assert_eq!(table[46].1, vec![1, 1, 1, 1, 1, 1, 1, 1, 1]);
}

#[test]
fn composite_preference() {
    // "www.x.com" is three symbols: the two composites around the one letter.
    let toks = tokenize_domain(&b"www.x.com".to_vec()).unwrap();
    assert_eq!(toks, vec![40, 24, 41]);
}

#[test]
fn unencodable_character() {
    assert_eq!(
        encode_name(b"bad!char.s---t."),
        Err(CodecError::UnencodableCharacter(b'!'))
    );
    let enc = encode_parts(
        &Socks5Target::Domain(b"ok.but".to_vec(), 0),
        &Socks5Target::Domain(b"no good".to_vec(), 80),
    );
    assert_eq!(enc, Err(CodecError::UnencodableCharacter(b' ')));
}

#[test]
fn backslash_is_consumed_silently() {
    let with = encode_parts(
        &Socks5Target::Domain(b"a\\b".to_vec(), 0),
        &Socks5Target::IP4(0, 0),
    )
    .unwrap();
    let without = encode_parts(
        &Socks5Target::Domain(b"ab".to_vec(), 0),
        &Socks5Target::IP4(0, 0),
    )
    .unwrap();
    assert_eq!(with, without);
}

#[test]
fn uppercase_is_lowered() {
    let upper = encode_name(b"EXAMPLE.COM.s---t.").unwrap();
    let lower = encode_name(b"example.com.s---t.").unwrap();
    assert_eq!(upper, lower);
}

#[test]
fn not_enough_space_for_long_domain() {
    // 30 letters need 8 + 150 + 5 bits, more than the 128 available.
    let name = b"abcdefghijklmnopqrstuvwxyzabcd".to_vec();
    let enc = encode_parts(&Socks5Target::Domain(name, 0), &Socks5Target::IP4(0, 0));
    assert_eq!(enc, Err(CodecError::NotEnoughSpace));
}

#[test]
fn not_enough_space_for_tail() {
    // 16 letters end at bit 94, past octet 10, so the IPv4 tail cannot fit.
    let name = b"aaaaaaaaaaaaaaaa".to_vec();
    let enc = encode_parts(
        &Socks5Target::Domain(name, 0),
        &Socks5Target::IP4(0x01020304, 99),
    );
    assert_eq!(enc, Err(CodecError::NotEnoughSpace));
}

#[test]
fn empty_domain_on_decode() {
    // discriminator says "domain", and the very first symbol is End
    let mut octets = vec![0xfd, 0x00];
    octets.resize(16, 0);
    assert_eq!(decode_addr(&octets, 80), Err(CodecError::EmptyDomain));
}

#[test]
fn truncated_domain_counts_as_end() {
    // All ones after the discriminator: every symbol read is the 11111 escape
    // with 1111, i.e. symbol 46 (".info"), until the stream runs out.
    let octets = vec![0xff; 16];
    let da = decode_addr(&octets, 80).unwrap();
    // 120 one-bits hold 13 whole ".info" code words and 3 left-over bits
    assert_eq!(
        da.target,
        Socks5Target::Domain(b".info".repeat(13), 80)
    );
    // nothing left for the upstream: the default
    assert_eq!(da.server, Socks5Target::IP4(0, 0));
}

#[test]
fn malformed_names() {
    assert_eq!(
        parse_query_name(&b"no-separator".to_vec()),
        Err(CodecError::MalformedAddress)
    );
    assert_eq!(
        parse_query_name(&b"a.s---t.b.s---t.".to_vec()),
        Err(CodecError::MalformedAddress)
    );
    assert_eq!(
        parse_query_name(&b"a.s---t.b.s---t.notaport.s---t.".to_vec()),
        Err(CodecError::MalformedAddress)
    );
}

#[test]
fn part_classification() {
    let q = parse_query_name(&b"r---e.example.com.s---t.".to_vec()).unwrap();
    assert_eq!(q.target, HostPart::Resolve(b"example.com".to_vec()));
    assert!(query_targets(&q).is_none());

    let q = parse_query_name(&b"01.2.3.4.s---t.".to_vec()).unwrap();
    assert_eq!(q.target, HostPart::Name(b"01.2.3.4".to_vec()));

    let q = parse_query_name(&b"256.2.3.4.s---t.".to_vec()).unwrap();
    assert_eq!(q.target, HostPart::Name(b"256.2.3.4".to_vec()));

    let q = parse_query_name(&b"9.8.7.6.s---t.".to_vec()).unwrap();
    assert_eq!(q.target, HostPart::Ip4(0x09080706));
    assert_eq!(q.upstream, None);
}

#[test]
fn port_grammar() {
    let q = parse_query_name(&b"a.s---t.b.s---t.+80.s---t.".to_vec()).unwrap();
    assert_eq!(q.upstream, Some((HostPart::Name(b"b".to_vec()), 80)));
    let q = parse_query_name(&b"a.s---t.b.s---t.00080.s---t.".to_vec()).unwrap();
    assert_eq!(q.upstream, Some((HostPart::Name(b"b".to_vec()), 80)));
    assert_eq!(
        parse_query_name(&b"a.s---t.b.s---t.65536.s---t.".to_vec()),
        Err(CodecError::MalformedAddress)
    );
}
