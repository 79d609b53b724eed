//! The SOCKS5 no-auth CONNECT subset: targets, request bytes, reply checks.
//!
//! The handshake itself is plain socket I/O and lives with the caller; this
//! module builds the exact bytes to send and decides what each reply byte
//! means, so that every rule of the protocol subset is stated and proved here.

use vstd::prelude::*;

verus! {

/// Failures of the SOCKS5 client handshake.
#[derive(Debug, Clone, Copy, PartialEq, Eq, Structural)]
pub enum SocksError {
    FailedToResolve,
    UnexpectedVersion,
    UnexpectedAddressType,
    AuthenticationNotSupported,
    ServerError(u8),
}

/// A connection target or upstream proxy: an IPv4 socket address (the address
/// as its big-endian 32-bit value), an IPv6 socket address (16 address
/// bytes), or a host name with a port.
#[derive(Debug, Clone, PartialEq, Eq)]
pub enum Socks5Target {
    IP4(u32, u16),
    IP6(Vec<u8>, u16),
    Domain(Vec<u8>, u16),
}

/// The mathematical content of a target: the same data over `Seq` and plain
/// integers.
pub enum TargetView {
    Ip4 { addr: u32, port: u16 },
    Ip6 { addr: Seq<u8>, port: u16 },
    Dom { name: Seq<u8>, port: u16 },
}

impl View for Socks5Target {
    type V = TargetView;

    open spec fn view(&self) -> TargetView {
        match self {
            Socks5Target::IP4(a, p) => TargetView::Ip4 { addr: *a, port: *p },
            Socks5Target::IP6(a, p) => TargetView::Ip6 { addr: a@, port: *p },
            Socks5Target::Domain(d, p) => TargetView::Dom { name: d@, port: *p },
        }
    }
}

impl Socks5Target {
    /// The sentinel that stands for "use the configured default upstream":
    /// the unspecified IPv4 address with port 0.
    pub open spec fn is_default_spec(&self) -> bool {
        self@ == (TargetView::Ip4 { addr: 0u32, port: 0u16 })
    }

    pub fn is_default(&self) -> (r: bool)
        ensures
            r == self.is_default_spec(),
    {
        match self {
            Socks5Target::IP4(a, p) => *a == 0 && *p == 0,
            _ => false,
        }
    }

    /// Shapes that the SOCKS5 request serializer accepts: an IPv6 address has
    /// its 16 bytes, a domain name fits the one-octet length field.
    pub open spec fn wf(&self) -> bool {
        match self {
            Socks5Target::IP4(_, _) => true,
            Socks5Target::IP6(a, _) => a@.len() == 16,
            Socks5Target::Domain(d, _) => 1 <= d@.len() <= 255,
        }
    }
}

/// Copies a byte vector.
pub fn copy_bytes(v: &Vec<u8>) -> (r: Vec<u8>)
    ensures
        r@ == v@,
{
    let mut r: Vec<u8> = Vec::new();
    let mut i: usize = 0;
    while i < v.len()
        invariant
            i <= v@.len(),
            r@ == v@.subrange(0, i as int),
        decreases v@.len() - i,
    {
        proof {
            assert(v@.subrange(0, i as int + 1) =~= v@.subrange(0, i as int).push(v@[i as int]));
        }
        r.push(v[i]);
        i = i + 1;
    }
    proof {
        assert(v@.subrange(0, v@.len() as int) =~= v@);
    }
    r
}

impl Socks5Target {
    /// A structurally equal copy.
    pub fn duplicate(&self) -> (r: Socks5Target)
        ensures
            r@ == self@,
    {
        match self {
            Socks5Target::IP4(a, p) => Socks5Target::IP4(*a, *p),
            Socks5Target::IP6(a, p) => Socks5Target::IP6(copy_bytes(a), *p),
            Socks5Target::Domain(d, p) => Socks5Target::Domain(copy_bytes(d), *p),
        }
    }
}

/// The upstream to dial: the decoded one, or the configured default where the
/// decoded one is the sentinel.
pub fn choose_server(decoded: &Socks5Target, default_server: &Socks5Target) -> (r: Socks5Target)
    ensures
        r@ == if decoded.is_default_spec() {
            default_server@
        } else {
            decoded@
        },
{
    if decoded.is_default() {
        default_server.duplicate()
    } else {
        decoded.duplicate()
    }
}

/// The big-endian bytes of an IPv4 address value.
pub open spec fn ip4_octets(a: u32) -> Seq<u8> {
    seq![(a >> 24u32) as u8, (a >> 16u32) as u8, (a >> 8u32) as u8, a as u8]
}

/// The big-endian bytes of a port.
pub open spec fn port_octets(p: u16) -> Seq<u8> {
    seq![(p >> 8u16) as u8, p as u8]
}

/// The CONNECT request for a target: `05 01 00 ATYP ADDR PORT`, with ATYP 1
/// for IPv4, 4 for IPv6, and 3 with a leading length byte for a domain.
pub open spec fn connect_request_bytes(t: Socks5Target) -> Seq<u8> {
    match t {
        Socks5Target::IP4(a, p) => seq![5u8, 1u8, 0u8, 1u8] + ip4_octets(a) + port_octets(p),
        Socks5Target::IP6(a, p) => seq![5u8, 1u8, 0u8, 4u8] + a@ + port_octets(p),
        Socks5Target::Domain(d, p) => seq![5u8, 1u8, 0u8, 3u8, d@.len() as u8] + d@
            + port_octets(p),
    }
}

/// Appends the two big-endian bytes of a port.
pub fn push_u16_be(v: &mut Vec<u8>, p: u16)
    ensures
        final(v)@ == old(v)@ + port_octets(p),
{
    proof {
        assert(((p >> 8u16) & 0xff) as u8 == (p >> 8u16) as u8 && (p & 0xff) as u8 == p as u8)
            by (bit_vector);
    }
    v.push(((p >> 8) & 0xff) as u8);
    v.push((p & 0xff) as u8);
    proof {
        assert(v@ =~= old(v)@ + port_octets(p));
    }
}

/// Appends the four big-endian bytes of an IPv4 address value.
pub fn push_u32_be(v: &mut Vec<u8>, a: u32)
    ensures
        final(v)@ == old(v)@ + ip4_octets(a),
{
    proof {
        assert(((a >> 24u32) & 0xff) as u8 == (a >> 24u32) as u8
            && ((a >> 16u32) & 0xff) as u8 == (a >> 16u32) as u8
            && ((a >> 8u32) & 0xff) as u8 == (a >> 8u32) as u8
            && (a & 0xff) as u8 == a as u8) by (bit_vector);
    }
    v.push(((a >> 24) & 0xff) as u8);
    v.push(((a >> 16) & 0xff) as u8);
    v.push(((a >> 8) & 0xff) as u8);
    v.push((a & 0xff) as u8);
    proof {
        assert(v@ =~= old(v)@ + ip4_octets(a));
    }
}

/// The method-selection greeting: version 5, one method, no authentication.
pub fn socks5_greeting() -> (r: Vec<u8>)
    ensures
        r@ == seq![5u8, 1u8, 0u8],
{
    let r: Vec<u8> = vec![5, 1, 0];
    proof {
        assert(r@ =~= seq![5u8, 1u8, 0u8]);
    }
    r
}

/// The bytes of the CONNECT request for a well-formed target.
pub fn socks5_request(target: &Socks5Target) -> (r: Vec<u8>)
    requires
        target.wf(),
    ensures
        r@ == connect_request_bytes(*target),
{
    let mut r: Vec<u8> = vec![5, 1, 0];
    proof {
        assert(r@ =~= seq![5u8, 1u8, 0u8]);
    }
    match target {
        Socks5Target::IP4(a, p) => {
            r.push(1);
            push_u32_be(&mut r, *a);
            push_u16_be(&mut r, *p);
            proof {
                assert(r@ =~= connect_request_bytes(*target));
            }
        },
        Socks5Target::IP6(a, p) => {
            r.push(4);
            let mut i: usize = 0;
            let ghost base = r@;
            while i < a.len()
                invariant
                    i <= a@.len(),
                    r@ == base + a@.subrange(0, i as int),
                decreases a@.len() - i,
            {
                proof {
                    assert(base + a@.subrange(0, i as int + 1)
                        =~= (base + a@.subrange(0, i as int)).push(a@[i as int]));
                }
                r.push(a[i]);
                i = i + 1;
            }
            push_u16_be(&mut r, *p);
            proof {
                assert(a@.subrange(0, a@.len() as int) =~= a@);
                assert(r@ =~= connect_request_bytes(*target));
            }
        },
        Socks5Target::Domain(d, p) => {
            r.push(3);
            r.push(d.len() as u8);
            let mut i: usize = 0;
            let ghost base = r@;
            while i < d.len()
                invariant
                    i <= d@.len(),
                    r@ == base + d@.subrange(0, i as int),
                decreases d@.len() - i,
            {
                proof {
                    assert(base + d@.subrange(0, i as int + 1)
                        =~= (base + d@.subrange(0, i as int)).push(d@[i as int]));
                }
                r.push(d[i]);
                i = i + 1;
            }
            push_u16_be(&mut r, *p);
            proof {
                assert(d@.subrange(0, d@.len() as int) =~= d@);
                assert(r@ =~= connect_request_bytes(*target));
            }
        },
    }
    r
}

/// What the two bytes of the method-selection reply mean: the version byte
/// must be 5 and the chosen method must be "no authentication".
pub fn validate_method_selection(ver: u8, method: u8) -> (r: Result<(), SocksError>)
    ensures
        ver != 5 ==> r == Err::<(), SocksError>(SocksError::UnexpectedVersion),
        ver == 5 && method != 0 ==> r == Err::<(), SocksError>(
            SocksError::AuthenticationNotSupported,
        ),
        ver == 5 && method == 0 ==> r == Ok::<(), SocksError>(()),
{
    if ver != 5 {
        Err(SocksError::UnexpectedVersion)
    } else if method != 0 {
        Err(SocksError::AuthenticationNotSupported)
    } else {
        Ok(())
    }
}

/// What the version and reply-code bytes of the CONNECT reply mean: version 5
/// and reply code 0, else the server's error code.
pub fn validate_connect_reply(ver: u8, rep: u8) -> (r: Result<(), SocksError>)
    ensures
        ver != 5 ==> r == Err::<(), SocksError>(SocksError::UnexpectedVersion),
        ver == 5 && rep != 0 ==> r == Err::<(), SocksError>(SocksError::ServerError(rep)),
        ver == 5 && rep == 0 ==> r == Ok::<(), SocksError>(()),
{
    if ver != 5 {
        Err(SocksError::UnexpectedVersion)
    } else if rep != 0 {
        Err(SocksError::ServerError(rep))
    } else {
        Ok(())
    }
}

/// How many bytes of bind address and port remain to drain after the reply
/// header: 4+2 for ATYP 1, 16+2 for ATYP 4, and the already-read length byte
/// plus 2 for ATYP 3; any other ATYP is an error.
pub fn bind_addr_len(atyp: u8, len_byte: u8) -> (r: Result<usize, SocksError>)
    ensures
        atyp == 1 ==> r == Ok::<usize, SocksError>(6usize),
        atyp == 4 ==> r == Ok::<usize, SocksError>(18usize),
        atyp == 3 ==> r == Ok::<usize, SocksError>((len_byte + 2) as usize),
        atyp != 1 && atyp != 3 && atyp != 4 ==> r == Err::<usize, SocksError>(
            SocksError::UnexpectedAddressType,
        ),
{
    if atyp == 1 {
        Ok(6)
    } else if atyp == 4 {
        Ok(18)
    } else if atyp == 3 {
        Ok(len_byte as usize + 2)
    } else {
        Err(SocksError::UnexpectedAddressType)
    }
}

} // verus!
