//! The synthetic-address codec.
//!
//! A target host and an optional upstream proxy are packed into the 16 bytes
//! of an IPv6 address: a 7-bit `1111110` prefix (the `fc00::/7` unique-local
//! tag), one discriminator bit and either a byte-aligned IPv4 address or a
//! Huffman-coded domain for the target, one discriminator bit and either a
//! Huffman-coded domain with a 16-bit port or nothing for the upstream, zero
//! padding, and — when the upstream is a literal non-zero IPv4 — its four
//! address bytes and two port bytes overwriting octets 10 to 15. Decoding
//! reads the same layout back, with the inbound TCP port supplying the
//! target's port. `lemma_codec_round_trip` proves that decoding an encoded
//! address recovers the inputs.

use vstd::prelude::*;
use vstd::arithmetic::power2::{pow2, lemma2_to64};
use crate::bits::{
    be_bits, be_val, pack16, pad128, unpack, byte_bit, bits_to_bytes, push_bits_be, read_bits_be,
    lemma_be_bits_len, lemma_be_val_be_bits_small, lemma_be_val_bound, lemma_be_val_concat,
    lemma_be_val_zeros, lemma_unpack_pack16,
};
use crate::huffman::{
    tokenize, symbols_bits, sym_code, syms_bytes, decode_syms, syms_of, encodable,
    tokenize_domain, push_symbols, read_domain, lemma_decode_encoded, lemma_tokenize_bytes,
    lemma_tokenize_err_iff,
};
use crate::socks5::{Socks5Target, TargetView, ip4_octets, port_octets, push_u16_be, push_u32_be};

verus! {

/// Failures of the address codec.
#[derive(Debug, Clone, Copy, PartialEq, Eq, Structural)]
pub enum CodecError {
    /// A Huffman domain decoded to zero symbols.
    EmptyDomain,
    /// A domain holds this character, which the alphabet does not contain.
    UnencodableCharacter(u8),
    /// The chosen layout does not fit the 128 bits.
    NotEnoughSpace,
    /// The value has a shape the codec does not carry (an IPv6 payload, or a
    /// name that does not follow the query grammar).
    MalformedAddress,
}

/// What decoding a captured address yields: the true target and the upstream
/// proxy to use (`Socks5Target::IP4(0, 0)` standing for the configured
/// default).
#[derive(Debug, Clone, PartialEq, Eq)]
pub struct DecodeAddr {
    pub server: Socks5Target,
    pub target: Socks5Target,
}

/// The constant 7-bit prefix `1111110`.
pub open spec fn prefix_bits() -> Seq<bool> {
    be_bits(0x7e, 7)
}

/// ASCII lowercasing of one byte.
pub open spec fn lower_byte(c: u8) -> u8 {
    if 65 <= c <= 90 {
        (c + 32) as u8
    } else {
        c
    }
}

/// ASCII lowercasing of a byte string.
pub open spec fn lower(s: Seq<u8>) -> Seq<u8> {
    Seq::new(s.len(), |i: int| lower_byte(s[i]))
}

/// The bit field of a Huffman-coded domain: discriminator, symbols, `End`.
pub open spec fn domain_field_bits(toks: Seq<int>) -> Seq<bool> {
    seq![true] + symbols_bits(toks) + sym_code(0)
}

/// The target field: either a discriminator 0 and 32 address bits, or a
/// Huffman domain.
pub open spec fn target_field_bits(t: Socks5Target) -> Result<Seq<bool>, CodecError> {
    match t {
        Socks5Target::IP4(a, _) => Ok(seq![false] + be_bits(a as int, 32)),
        Socks5Target::Domain(d, _) => match tokenize(lower(d@)) {
            Ok(toks) => Ok(domain_field_bits(toks)),
            Err(c) => Err(CodecError::UnencodableCharacter(c)),
        },
        Socks5Target::IP6(_, _) => Err(CodecError::MalformedAddress),
    }
}

/// The upstream field: a Huffman domain followed by 16 port bits, or — for an
/// IPv4 or default upstream — a single 0 bit where one still fits.
pub open spec fn server_field_bits(u: Socks5Target, stem1_len: int) -> Result<
    Seq<bool>,
    CodecError,
> {
    match u {
        Socks5Target::Domain(d, port) => match tokenize(lower(d@)) {
            Ok(toks) => Ok(domain_field_bits(toks) + be_bits(port as int, 16)),
            Err(c) => Err(CodecError::UnencodableCharacter(c)),
        },
        Socks5Target::IP4(_, _) => Ok(
            if stem1_len < 128 {
                seq![false]
            } else {
                Seq::empty()
            },
        ),
        Socks5Target::IP6(_, _) => Err(CodecError::MalformedAddress),
    }
}

/// Whether the upstream is written as a literal IPv4 tail in octets 10 to 15.
pub open spec fn has_ip4_tail(u: Socks5Target) -> bool {
    match u {
        Socks5Target::IP4(a, _) => a != 0,
        _ => false,
    }
}

/// `bytes` with octets 10 to 15 replaced by the upstream IPv4 and port.
pub open spec fn splice_tail(bytes: Seq<u8>, u: Socks5Target) -> Seq<u8> {
    match u {
        Socks5Target::IP4(a, p) => bytes.subrange(0, 10) + ip4_octets(a) + port_octets(p),
        _ => bytes,
    }
}

/// The 16 encoded bytes of a target and upstream, or the first error in this
/// order: an unencodable character in the target then in the upstream domain,
/// an unsupported IPv6 payload, then any want of space.
pub open spec fn spec_encode(t: Socks5Target, u: Socks5Target) -> Result<Seq<u8>, CodecError> {
    match target_field_bits(t) {
        Err(e) => Err(e),
        Ok(tb) => match server_field_bits(u, prefix_bits().len() + tb.len() as int) {
            Err(e) => Err(e),
            Ok(ub) => {
                let stem1 = prefix_bits() + tb;
                if stem1.len() > 128 {
                    Err(CodecError::NotEnoughSpace)
                } else {
                    let stem2 = stem1 + ub;
                    if stem2.len() > 128 {
                        Err(CodecError::NotEnoughSpace)
                    } else if has_ip4_tail(u) && stem2.len() > 80 {
                        Err(CodecError::NotEnoughSpace)
                    } else if has_ip4_tail(u) {
                        Ok(splice_tail(pack16(pad128(stem2)), u))
                    } else {
                        Ok(pack16(pad128(stem2)))
                    }
                }
            },
        },
    }
}

/// The sentinel view: unspecified IPv4, port 0.
pub open spec fn default_upstream() -> TargetView {
    TargetView::Ip4 { addr: 0u32, port: 0u16 }
}

/// The next multiple of 8 at or after `p`.
pub open spec fn align8(p: int) -> int {
    if p % 8 == 0 {
        p
    } else {
        p + 8 - (p % 8)
    }
}

/// The upstream read back from position `q` of the bit string: nothing left
/// means the default; a 1 bit introduces a Huffman domain and a 16-bit port;
/// a 0 bit means byte-align, and octets 10 to 15 hold the IPv4 tail if the
/// stream reaches them, the default otherwise.
pub open spec fn spec_decode_server(bits: Seq<bool>, q: int) -> Result<TargetView, CodecError> {
    if q >= 128 {
        Ok(default_upstream())
    } else if bits[q] {
        let (syms, e) = decode_syms(bits, q + 1);
        if syms.len() == 0 {
            Err(CodecError::EmptyDomain)
        } else if e + 16 > 128 {
            Err(CodecError::NotEnoughSpace)
        } else {
            Ok(
                TargetView::Dom {
                    name: syms_bytes(syms),
                    port: be_val(bits.subrange(e, e + 16)) as u16,
                },
            )
        }
    } else {
        if align8(q + 1) + 56 > 128 {
            Ok(default_upstream())
        } else {
            Ok(
                TargetView::Ip4 {
                    addr: be_val(bits.subrange(80, 112)) as u32,
                    port: be_val(bits.subrange(112, 128)) as u16,
                },
            )
        }
    }
}

/// What the 16 captured bytes and the inbound port decode to: the target view
/// and the upstream view.
pub open spec fn spec_decode(bytes: Seq<u8>, port: u16) -> Result<
    (TargetView, TargetView),
    CodecError,
> {
    let bits = unpack(bytes);
    if bits[7] {
        let (syms, q) = decode_syms(bits, 8);
        if syms.len() == 0 {
            Err(CodecError::EmptyDomain)
        } else {
            match spec_decode_server(bits, q) {
                Err(e) => Err(e),
                Ok(sv) => Ok((TargetView::Dom { name: syms_bytes(syms), port }, sv)),
            }
        }
    } else {
        match spec_decode_server(bits, 40) {
            Err(e) => Err(e),
            Ok(sv) => Ok(
                (TargetView::Ip4 { addr: be_val(bits.subrange(8, 40)) as u32, port }, sv),
            ),
        }
    }
}

/// ASCII-lowercases a byte string.
pub fn lower_bytes(d: &Vec<u8>) -> (r: Vec<u8>)
    ensures
        r@ == lower(d@),
{
    let mut r: Vec<u8> = Vec::new();
    let mut i: usize = 0;
    while i < d.len()
        invariant
            i <= d@.len(),
            r@.len() == i,
            forall|t: int| 0 <= t < i ==> r@[t] == lower_byte(d@[t]),
        decreases d@.len() - i,
    {
        let c = d[i];
        if 65 <= c && c <= 90 {
            r.push(c + 32);
        } else {
            r.push(c);
        }
        i = i + 1;
    }
    proof {
        assert(r@ =~= lower(d@));
    }
    r
}

/// Encodes a target and an upstream into the 16 bytes of a synthetic IPv6
/// address, exactly as `spec_encode` lays them out; on success the first 7
/// bits of the buffer are the constant `1111110` prefix.
pub fn encode_parts(target: &Socks5Target, server: &Socks5Target) -> (r: Result<
    Vec<u8>,
    CodecError,
>)
    ensures
        match (r, spec_encode(*target, *server)) {
            (Ok(v), Ok(s)) => v@ == s,
            (Err(e1), Err(e2)) => e1 == e2,
            _ => false,
        },
        match r {
            Ok(v) => v@.len() == 16 && v@[0] >> 1u8 == 0x7e,
            Err(_) => true,
        },
{
    let mut bits: Vec<bool> = Vec::new();
    push_bits_be(&mut bits, 0x7e, 7);
    proof {
        assert(bits@ =~= prefix_bits());
    }
    match target {
        Socks5Target::IP4(a, _) => {
            bits.push(false);
            push_bits_be(&mut bits, *a, 32);
            proof {
                assert(bits@ =~= prefix_bits() + (seq![false] + be_bits(*a as int, 32)));
            }
        },
        Socks5Target::Domain(d, _) => {
            let low = lower_bytes(d);
            let toks = match tokenize_domain(&low) {
                Ok(t) => t,
                Err(c) => {
                    return Err(CodecError::UnencodableCharacter(c));
                },
            };
            bits.push(true);
            push_symbols(&mut bits, &toks);
            push_bits_be(&mut bits, 0, 5);
            proof {
                assert(sym_code(0) == be_bits(0, 5));
                assert(bits@ =~= prefix_bits() + domain_field_bits(syms_of(toks@)));
            }
        },
        Socks5Target::IP6(_, _) => {
            return Err(CodecError::MalformedAddress);
        },
    }
    let ghost tb = target_field_bits(*target)->Ok_0;
    proof {
        assert(bits@ == prefix_bits() + tb);
    }
    let ghost stem1 = prefix_bits() + tb;
    // The upstream's alphabet errors take precedence over any want of space.
    let server_toks: Option<Vec<u8>> = match server {
        Socks5Target::Domain(d, _) => {
            let low = lower_bytes(d);
            match tokenize_domain(&low) {
                Ok(t) => Some(t),
                Err(c) => {
                    return Err(CodecError::UnencodableCharacter(c));
                },
            }
        },
        Socks5Target::IP4(_, _) => None,
        Socks5Target::IP6(_, _) => {
            return Err(CodecError::MalformedAddress);
        },
    };
    if bits.len() > 128 {
        return Err(CodecError::NotEnoughSpace);
    }
    match (server, server_toks) {
        (Socks5Target::Domain(_, p), Some(toks)) => {
            bits.push(true);
            push_symbols(&mut bits, &toks);
            push_bits_be(&mut bits, 0, 5);
            push_bits_be(&mut bits, *p as u32, 16);
            proof {
                assert(sym_code(0) == be_bits(0, 5));
                assert((*p as u32) as int == *p as int);
                assert(bits@ =~= stem1 + (domain_field_bits(syms_of(toks@))
                    + be_bits(*p as int, 16)));
            }
            if bits.len() > 128 {
                return Err(CodecError::NotEnoughSpace);
            }
        },
        _ => {
            if bits.len() < 128 {
                bits.push(false);
                proof {
                    assert(bits@ =~= stem1 + seq![false]);
                }
            } else {
                proof {
                    assert(bits@ =~= stem1 + Seq::<bool>::empty());
                }
            }
        },
    }
    let ghost ub = server_field_bits(*server, stem1.len() as int)->Ok_0;
    let ghost stem2 = stem1 + ub;
    proof {
        assert(bits@ == stem2);
    }
    match server {
        Socks5Target::IP4(a, p) => {
            if *a != 0 {
                if bits.len() > 80 {
                    return Err(CodecError::NotEnoughSpace);
                }
                let base = bits_to_bytes(&bits);
                let mut out: Vec<u8> = Vec::new();
                let mut i: usize = 0;
                while i < 10
                    invariant
                        i <= 10,
                        base@.len() == 16,
                        base@ == pack16(pad128(stem2)),
                        out@ == base@.subrange(0, i as int),
                    decreases 10 - i,
                {
                    proof {
                        assert(base@.subrange(0, i as int + 1)
                            =~= base@.subrange(0, i as int).push(base@[i as int]));
                    }
                    out.push(base[i]);
                    i = i + 1;
                }
                push_u32_be(&mut out, *a);
                push_u16_be(&mut out, *p);
                proof {
                    assert(out@ =~= splice_tail(pack16(pad128(stem2)), *server));
                    lemma_encode_prefix(stem2);
                    assert(out@[0] == pack16(pad128(stem2))[0]);
                }
                return Ok(out);
            }
        },
        _ => {},
    }
    proof {
        lemma_encode_prefix(stem2);
    }
    Ok(bits_to_bytes(&bits))
}

/// Decodes the 16 bytes of a captured IPv6 address together with the inbound
/// TCP port, exactly as `spec_decode` reads them.
pub fn decode_addr(octets: &Vec<u8>, port: u16) -> (r: Result<DecodeAddr, CodecError>)
    requires
        octets@.len() == 16,
    ensures
        match (r, spec_decode(octets@, port)) {
            (Ok(da), Ok((tv, sv))) => da.target@ == tv && da.server@ == sv,
            (Err(e1), Err(e2)) => e1 == e2,
            _ => false,
        },
{
    let mut bv: Vec<bool> = Vec::new();
    let mut i: usize = 0;
    while i < 128
        invariant
            i <= 128,
            octets@.len() == 16,
            bv@.len() == i,
            forall|t: int| 0 <= t < i ==> bv@[t] == unpack(octets@)[t],
        decreases 128 - i,
    {
        let b = octets[i / 8];
        let sh: u8 = (7 - (i % 8)) as u8;
        let bit: bool = (b >> sh) & 1 == 1;
        proof {
            assert(unpack(octets@)[i as int] == byte_bit(
                octets@[i as int / 8],
                i as int % 8,
            ));
        }
        bv.push(bit);
        i = i + 1;
    }
    proof {
        assert(bv@ =~= unpack(octets@));
    }
    let target: Socks5Target;
    let q: usize;
    if bv[7] {
        let (dom, qq) = read_domain(&bv, 8);
        if dom.len() == 0 {
            return Err(CodecError::EmptyDomain);
        }
        target = Socks5Target::Domain(dom, port);
        q = qq;
    } else {
        let a = read_bits_be(&bv, 8, 32);
        proof {
            lemma_be_val_bound(bv@.subrange(8, 40));
            lemma2_to64();
        }
        target = Socks5Target::IP4(a, port);
        q = 40;
    }
    let server: Socks5Target;
    if q >= 128 {
        server = Socks5Target::IP4(0, 0);
    } else if bv[q] {
        let (sdom, e) = read_domain(&bv, q + 1);
        if sdom.len() == 0 {
            return Err(CodecError::EmptyDomain);
        }
        if 128 - e < 16 {
            return Err(CodecError::NotEnoughSpace);
        }
        let sp = read_bits_be(&bv, e, 16);
        proof {
            lemma_be_val_bound(bv@.subrange(e as int, e as int + 16));
            lemma2_to64();
        }
        server = Socks5Target::Domain(sdom, sp as u16);
    } else {
        let al: usize = if (q + 1) % 8 == 0 {
            q + 1
        } else {
            q + 1 + (8 - (q + 1) % 8)
        };
        proof {
            assert(al as int == align8(q as int + 1));
        }
        if al > 72 {
            server = Socks5Target::IP4(0, 0);
        } else {
            let sa = read_bits_be(&bv, 80, 32);
            let sp = read_bits_be(&bv, 112, 16);
            proof {
                lemma_be_val_bound(bv@.subrange(80, 112));
                lemma_be_val_bound(bv@.subrange(112, 128));
                lemma2_to64();
            }
            server = Socks5Target::IP4(sa, sp as u16);
        }
    }
    Ok(DecodeAddr { server, target })
}

/// The first byte of a packed stem that starts with the constant prefix
/// carries that prefix in its upper 7 bits.
proof fn lemma_encode_prefix(s: Seq<bool>)
    requires
        s.len() <= 128,
        prefix_bits().is_prefix_of(s),
    ensures
        pack16(pad128(s))[0] >> 1u8 == 0x7e,
{
    lemma_be_bits_len(0x7e, 7);
    let p = pad128(s);
    let g = p.subrange(0, 8);
    assert(g =~= prefix_bits() + seq![p[7]]);
    lemma2_to64();
    lemma_be_val_concat(prefix_bits(), seq![p[7]]);
    lemma_be_val_be_bits_small(0x7e, 7);
    assert(seq![p[7]].drop_last() =~= Seq::<bool>::empty());
    assert(be_val(Seq::<bool>::empty()) == 0);
    assert(be_val(seq![p[7]]) == if p[7] { 1int } else { 0int });
    assert(be_val(g) == 0x7e * 2 + if p[7] { 1int } else { 0int });
    assert(pack16(p)[0] == be_val(g) as u8);
    assert(0xfcu8 >> 1u8 == 0x7e && 0xfdu8 >> 1u8 == 0x7e) by (bit_vector);
}

/// Whether a target carries a domain with a character that the alphabet does
/// not contain (backslashes aside), after lowercasing.
pub open spec fn has_bad_char(t: Socks5Target) -> bool {
    match t {
        Socks5Target::Domain(d, _) => exists|i: int|
            0 <= i < d@.len() && !encodable(#[trigger] lower(d@)[i]),
        _ => false,
    }
}

/// Alphabet closure: encoding fails with `UnencodableCharacter` exactly when
/// the lowercased target or upstream domain holds a character outside the
/// alphabet, backslashes aside.
pub proof fn lemma_unencodable_iff(t: Socks5Target, u: Socks5Target)
    requires
        !(t matches Socks5Target::IP6(_, _)),
        !(u matches Socks5Target::IP6(_, _)),
    ensures
        (exists|c: u8|
            spec_encode(t, u) == Err::<Seq<u8>, CodecError>(
                CodecError::UnencodableCharacter(c),
            )) <==> (has_bad_char(t) || has_bad_char(u)),
{
    match t {
        Socks5Target::Domain(d, _) => {
            lemma_tokenize_err_iff(lower(d@));
            assert(lower(d@).len() == d@.len());
        },
        _ => {},
    }
    match u {
        Socks5Target::Domain(d, _) => {
            lemma_tokenize_err_iff(lower(d@));
            assert(lower(d@).len() == d@.len());
        },
        _ => {},
    }
    if has_bad_char(t) {
        let c = tokenize(lower(t->Domain_0@))->Err_0;
        assert(spec_encode(t, u) == Err::<Seq<u8>, CodecError>(
            CodecError::UnencodableCharacter(c),
        ));
    } else if has_bad_char(u) {
        let c = tokenize(lower(u->Domain_0@))->Err_0;
        assert(spec_encode(t, u) == Err::<Seq<u8>, CodecError>(
            CodecError::UnencodableCharacter(c),
        ));
    }
}

/// A domain that round-trips exactly: non-empty, already lowercase,
/// backslash-free, and drawn from the alphabet.
pub open spec fn round_trip_domain(d: Seq<u8>) -> bool {
    d.len() > 0 && lower(d) == d && (forall|i: int| 0 <= i < d.len() ==> #[trigger] d[i] != 92)
        && tokenize(d) is Ok
}

/// The number of bits the encoding occupies before padding, when it exists.
pub open spec fn stem_len(t: Socks5Target, u: Socks5Target) -> int {
    let tb = target_field_bits(t)->Ok_0;
    7 + tb.len() + server_field_bits(u, 7 + tb.len() as int)->Ok_0.len() as int
}

/// `v` with its port replaced.
pub open spec fn with_port(v: TargetView, port: u16) -> TargetView {
    match v {
        TargetView::Ip4 { addr, port: _ } => TargetView::Ip4 { addr, port },
        TargetView::Ip6 { addr, port: _ } => TargetView::Ip6 { addr, port },
        TargetView::Dom { name, port: _ } => TargetView::Dom { name, port },
    }
}

/// Aligning to the next octet moves forward less than 8 bits and cannot pass
/// octet 9.
proof fn lemma_align8(x: int)
    requires
        0 <= x,
    ensures
        x <= align8(x) < x + 8,
        align8(x) % 8 == 0,
        x <= 72 ==> align8(x) <= 72,
{
    vstd::arithmetic::div_mod::lemma_fundamental_div_mod(x, 8);
    vstd::arithmetic::div_mod::lemma_mod_bound(x, 8);
    if x % 8 != 0 {
        let q = x / 8;
        assert(x == 8 * q + x % 8);
        assert(align8(x) == 8 * q + 8);
        assert(8 * (q + 1) % 8 == 0) by (nonlinear_arith);
        assert(8 * q + 8 == 8 * (q + 1));
        if x <= 72 {
            assert(8 * q <= 71);
            assert(q <= 8);
        }
    }
}

/// The 48 bits of octets 10 to 15 read back the IPv4 address and port that
/// were written there.
proof fn lemma_tail_value(enc: Seq<u8>, a: u32, p: u16)
    requires
        enc.len() == 16,
        enc[10] == (a >> 24u32) as u8,
        enc[11] == (a >> 16u32) as u8,
        enc[12] == (a >> 8u32) as u8,
        enc[13] == a as u8,
        enc[14] == (p >> 8u16) as u8,
        enc[15] == p as u8,
    ensures
        be_val(unpack(enc).subrange(80, 112)) == a as int,
        be_val(unpack(enc).subrange(112, 128)) == p as int,
{
    let bits = unpack(enc);
    crate::bits::lemma_unpack_byte(enc, 10);
    crate::bits::lemma_unpack_byte(enc, 11);
    crate::bits::lemma_unpack_byte(enc, 12);
    crate::bits::lemma_unpack_byte(enc, 13);
    crate::bits::lemma_unpack_byte(enc, 14);
    crate::bits::lemma_unpack_byte(enc, 15);
    lemma2_to64();
    let g10 = bits.subrange(80, 88);
    let g11 = bits.subrange(88, 96);
    let g12 = bits.subrange(96, 104);
    let g13 = bits.subrange(104, 112);
    let g14 = bits.subrange(112, 120);
    let g15 = bits.subrange(120, 128);
    assert(g10 + g11 =~= bits.subrange(80, 96));
    assert((g10 + g11) + g12 =~= bits.subrange(80, 104));
    assert(((g10 + g11) + g12) + g13 =~= bits.subrange(80, 112));
    lemma_be_val_concat(g10, g11);
    lemma_be_val_concat(g10 + g11, g12);
    lemma_be_val_concat((g10 + g11) + g12, g13);
    assert(be_val(bits.subrange(80, 112)) == ((enc[10] * 256 + enc[11]) * 256 + enc[12]) * 256
        + enc[13]);
    assert(((((a >> 24u32) as u8) * 256 + ((a >> 16u32) as u8)) * 256 + ((a >> 8u32) as u8)) * 256
        + (a as u8) == a) by (bit_vector);
    assert(g14 + g15 =~= bits.subrange(112, 128));
    lemma_be_val_concat(g14, g15);
    assert(be_val(bits.subrange(112, 128)) == enc[14] * 256 + enc[15]);
    assert(((p >> 8u16) as u8) * 256 + (p as u8) == p) by (bit_vector);
}

/// Codec round trip: decoding an encoded address with the inbound TCP port
/// recovers the target, now carrying that port, and the upstream exactly.
/// The unspecified-IPv4 upstream must carry port 0 (it is the sentinel for
/// the configured default and decodes back to exactly that), and a literal
/// IPv4 upstream must leave the bit stem within 72 bits, since the decoder
/// reaches the tail octets only from there.
#[verifier::rlimit(100)]
pub proof fn lemma_codec_round_trip(t: Socks5Target, u: Socks5Target, port: u16)
    requires
        spec_encode(t, u) is Ok,
        t matches Socks5Target::Domain(d, _) ==> round_trip_domain(d@),
        u matches Socks5Target::Domain(d, _) ==> round_trip_domain(d@),
        u matches Socks5Target::IP4(a, p) ==> (a == 0 ==> p == 0),
        has_ip4_tail(u) ==> stem_len(t, u) <= 72,
    ensures
        spec_decode(spec_encode(t, u)->Ok_0, port) == Ok::<
            (TargetView, TargetView),
            CodecError,
        >((with_port(t@, port), u@)),
{
    let tb = target_field_bits(t)->Ok_0;
    let stem1 = prefix_bits() + tb;
    let ub = server_field_bits(u, stem1.len() as int)->Ok_0;
    let stem2 = stem1 + ub;
    let base = pack16(pad128(stem2));
    let enc = spec_encode(t, u)->Ok_0;
    let bits = unpack(enc);
    lemma_be_bits_len(0x7e, 7);
    lemma_be_bits_len(0, 5);
    lemma2_to64();
    assert(sym_code(0).len() == 5);
    assert(prefix_bits().len() == 7);
    assert(stem2.len() <= 128);
    lemma_unpack_pack16(pad128(stem2));
    let cut: int = if has_ip4_tail(u) { 80int } else { 128int };
    assert(has_ip4_tail(u) ==> stem2.len() <= 72);
    assert forall|i: int| 0 <= i < cut implies bits[i] == pad128(stem2)[i] by {
        if has_ip4_tail(u) {
            match u {
                Socks5Target::IP4(a2, p2) => {
                    vstd::arithmetic::div_mod::lemma_fundamental_div_mod(i, 8);
                    vstd::arithmetic::div_mod::lemma_mod_bound(i, 8);
                    assert(enc == base.subrange(0, 10) + ip4_octets(a2) + port_octets(p2));
                    assert(i / 8 < 10);
                    assert(enc[i / 8] == base[i / 8]);
                    assert(bits[i] == byte_bit(enc[i / 8], i % 8));
                    assert(unpack(base)[i] == byte_bit(base[i / 8], i % 8));
                },
                _ => {},
            }
        } else {
            assert(enc == base);
        }
    }
    // Target field.
    assert(tb.len() >= 1);
    assert(bits[7] == stem2[7] && stem2[7] == stem1[7] && stem1[7] == tb[0]);
    let q = stem1.len() as int;
    match t {
        Socks5Target::IP4(a, _) => {
            assert(tb == seq![false] + be_bits(a as int, 32));
            lemma_be_bits_len(a as int, 32);
            assert(!bits[7]);
            assert(q == 40);
            assert(bits.subrange(8, 40) =~= be_bits(a as int, 32)) by {
                assert forall|tt: int| 0 <= tt < 32 implies bits.subrange(8, 40)[tt] == be_bits(
                    a as int,
                    32,
                )[tt] by {
                    assert(bits[8 + tt] == pad128(stem2)[8 + tt]);
                    assert(pad128(stem2)[8 + tt] == stem2[8 + tt]);
                    assert(stem2[8 + tt] == stem1[8 + tt]);
                    assert(stem1[8 + tt] == tb[1 + tt]);
                    assert(tb[1 + tt] == be_bits(a as int, 32)[tt]);
                }
            }
            lemma_be_val_be_bits_small(a as int, 32);
            assert(be_val(bits.subrange(8, 40)) as u32 == a);
        },
        Socks5Target::Domain(d, _) => {
            assert(lower(d@) == d@);
            let toks = tokenize(d@)->Ok_0;
            lemma_tokenize_bytes(d@);
            assert(tb == domain_field_bits(toks));
            let lsym = symbols_bits(toks).len() as int;
            assert(tb.len() == 1 + lsym + 5);
            assert(bits[7]);
            assert(q == 13 + lsym);
            assert(bits.subrange(8, 8 + lsym + 5) =~= symbols_bits(toks) + sym_code(0)) by {
                assert forall|tt: int| 0 <= tt < lsym + 5 implies bits.subrange(
                    8,
                    8 + lsym + 5,
                )[tt] == (symbols_bits(toks) + sym_code(0))[tt] by {
                    assert(bits[8 + tt] == pad128(stem2)[8 + tt]);
                    assert(pad128(stem2)[8 + tt] == stem2[8 + tt]);
                    assert(stem2[8 + tt] == stem1[8 + tt]);
                    assert(stem1[8 + tt] == tb[1 + tt]);
                }
            }
            lemma_decode_encoded(bits, 8, toks);
            assert(decode_syms(bits, 8).0 == toks && decode_syms(bits, 8).1 == q);
            assert(toks.len() > 0);
            assert(syms_bytes(toks) == d@);
        },
        Socks5Target::IP6(_, _) => {
            assert(false);
        },
    }
    // Upstream field.
    match u {
        Socks5Target::Domain(d2, p2) => {
            assert(lower(d2@) == d2@);
            let utoks = tokenize(d2@)->Ok_0;
            lemma_tokenize_bytes(d2@);
            assert(ub == domain_field_bits(utoks) + be_bits(p2 as int, 16));
            lemma_be_bits_len(p2 as int, 16);
            let lu = symbols_bits(utoks).len() as int;
            assert(ub.len() == 1 + lu + 5 + 16);
            assert(stem2.len() == q + 22 + lu);
            assert(q < 128);
            assert(bits[q] == stem2[q] && stem2[q] == ub[0]);
            assert(ub[0] == domain_field_bits(utoks)[0]);
            assert(bits[q]);
            assert(bits.subrange(q + 1, q + 1 + lu + 5) =~= symbols_bits(utoks) + sym_code(0))
                by {
                assert forall|tt: int| 0 <= tt < lu + 5 implies bits.subrange(
                    q + 1,
                    q + 1 + lu + 5,
                )[tt] == (symbols_bits(utoks) + sym_code(0))[tt] by {
                    assert(bits[q + 1 + tt] == pad128(stem2)[q + 1 + tt]);
                    assert(pad128(stem2)[q + 1 + tt] == stem2[q + 1 + tt]);
                    assert(stem2[q + 1 + tt] == ub[1 + tt]);
                    assert(ub[1 + tt] == domain_field_bits(utoks)[1 + tt]);
                }
            }
            lemma_decode_encoded(bits, q + 1, utoks);
            let e = q + 1 + lu + 5;
            assert(decode_syms(bits, q + 1).0 == utoks && decode_syms(bits, q + 1).1 == e);
            assert(utoks.len() > 0);
            assert(syms_bytes(utoks) == d2@);
            assert(e + 16 == stem2.len());
            assert(bits.subrange(e, e + 16) =~= be_bits(p2 as int, 16)) by {
                assert forall|tt: int| 0 <= tt < 16 implies bits.subrange(e, e + 16)[tt]
                    == be_bits(p2 as int, 16)[tt] by {
                    assert(bits[e + tt] == pad128(stem2)[e + tt]);
                    assert(pad128(stem2)[e + tt] == stem2[e + tt]);
                    assert(stem2[e + tt] == ub[1 + lu + 5 + tt]);
                    assert(ub[1 + lu + 5 + tt] == be_bits(p2 as int, 16)[tt]);
                }
            }
            lemma_be_val_be_bits_small(p2 as int, 16);
            assert(be_val(bits.subrange(e, e + 16)) as u16 == p2);
        },
        Socks5Target::IP4(a2, p2) => {
            if stem1.len() == 128 {
                assert(ub == Seq::<bool>::empty());
                assert(q == 128);
                assert(a2 == 0 && p2 == 0);
                assert(spec_decode_server(bits, q) == Ok::<TargetView, CodecError>(
                    default_upstream(),
                ));
            } else {
                assert(ub == seq![false]);
                assert(q + 1 == stem2.len());
                assert(q < 128);
                assert(bits[q] == stem2[q] && stem2[q] == ub[0]);
                assert(!bits[q]);
                lemma_align8(q + 1);
                if a2 != 0 {
                    assert(stem2.len() <= 72);
                    assert(align8(q + 1) <= 72);
                    assert(enc == base.subrange(0, 10) + ip4_octets(a2) + port_octets(p2));
                    assert(enc[10] == (a2 >> 24u32) as u8);
                    assert(enc[11] == (a2 >> 16u32) as u8);
                    assert(enc[12] == (a2 >> 8u32) as u8);
                    assert(enc[13] == a2 as u8);
                    assert(enc[14] == (p2 >> 8u16) as u8);
                    assert(enc[15] == p2 as u8);
                    assert(enc.len() == 16);
                    lemma_tail_value(enc, a2, p2);
                    assert(be_val(bits.subrange(80, 112)) as u32 == a2);
                    assert(be_val(bits.subrange(112, 128)) as u16 == p2);
                } else {
                    assert(p2 == 0);
                    assert(enc == base);
                    if align8(q + 1) <= 72 {
                        assert forall|i: int| 80 <= i < 128 implies !bits[i] by {
                            assert(bits[i] == pad128(stem2)[i]);
                            assert(stem2.len() <= 72);
                        }
                        assert(forall|i: int| 0 <= i < 32 ==> !(#[trigger] bits.subrange(
                            80,
                            112,
                        )[i]));
                        assert(forall|i: int| 0 <= i < 16 ==> !(#[trigger] bits.subrange(
                            112,
                            128,
                        )[i]));
                        lemma_be_val_zeros(bits.subrange(80, 112));
                        lemma_be_val_zeros(bits.subrange(112, 128));
                        assert(be_val(bits.subrange(80, 112)) as u32 == 0u32);
                        assert(be_val(bits.subrange(112, 128)) as u16 == 0u16);
                    }
                }
            }
        },
        Socks5Target::IP6(_, _) => {
            assert(false);
        },
    }
}

} // verus!
