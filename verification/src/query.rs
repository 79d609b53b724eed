//! The DNS name grammar of the stub resolver.
//!
//! A query name is matched case-insensitively against
//! `<part> ".s---t."` or `<part> ".s---t." <part> ".s---t." <port> ".s---t."`,
//! where a part is a dotted IPv4 literal, `r---e.<name>` asking for system
//! resolution of `<name>`, or a domain carried verbatim. Parsing classifies
//! the parts; resolution itself is the caller's affair.

use vstd::prelude::*;
use crate::codec::{lower, lower_bytes, CodecError};
use crate::socks5::{Socks5Target, TargetView, copy_bytes};

verus! {

/// The separator `.s---t.`.
pub open spec fn sep() -> Seq<u8> {
    seq![46, 115, 45, 45, 45, 116, 46]
}

/// The resolution-request prefix `r---e.`.
pub open spec fn resolve_prefix() -> Seq<u8> {
    seq![114, 45, 45, 45, 101, 46]
}

/// The first position at or after `i` where the separator stands.
pub open spec fn find_sep_from(s: Seq<u8>, i: int) -> Option<int>
    decreases s.len() - i,
{
    if i < 0 || i + 7 > s.len() {
        None
    } else if s.subrange(i, i + 7) == sep() {
        Some(i)
    } else {
        find_sep_from(s, i + 1)
    }
}

/// The first position at or after `i` holding byte `b`.
pub open spec fn find_byte_from(s: Seq<u8>, b: u8, i: int) -> Option<int>
    decreases s.len() - i,
{
    if i < 0 || i >= s.len() {
        None
    } else if s[i] == b {
        Some(i)
    } else {
        find_byte_from(s, b, i + 1)
    }
}

pub open spec fn all_digits(s: Seq<u8>) -> bool {
    forall|i: int| 0 <= i < s.len() ==> 48 <= #[trigger] s[i] <= 57
}

/// The decimal value of a digit string.
pub open spec fn dec_val(s: Seq<u8>) -> int
    decreases s.len(),
{
    if s.len() == 0 {
        0
    } else {
        10 * dec_val(s.drop_last()) + (s.last() - 48)
    }
}

/// One octet of a dotted IPv4 literal: one to three digits, no leading zero
/// unless the octet is exactly `0`, value at most 255.
pub open spec fn parse_octet(s: Seq<u8>) -> Option<int> {
    if 1 <= s.len() <= 3 && all_digits(s) && (s[0] == 48 ==> s.len() == 1) && dec_val(s) <= 255 {
        Some(dec_val(s))
    } else {
        None
    }
}

/// A dotted-quad IPv4 literal, as its big-endian 32-bit value.
pub open spec fn parse_ipv4(s: Seq<u8>) -> Option<u32> {
    match find_byte_from(s, 46, 0) {
        None => None,
        Some(d1) => match find_byte_from(s, 46, d1 + 1) {
            None => None,
            Some(d2) => match find_byte_from(s, 46, d2 + 1) {
                None => None,
                Some(d3) => if find_byte_from(s, 46, d3 + 1) is Some {
                    None
                } else {
                    match (
                        parse_octet(s.subrange(0, d1)),
                        parse_octet(s.subrange(d1 + 1, d2)),
                        parse_octet(s.subrange(d2 + 1, d3)),
                        parse_octet(s.skip(d3 + 1)),
                    ) {
                        (Some(a), Some(b), Some(c), Some(d)) => Some(
                            (a * 0x1000000 + b * 0x10000 + c * 0x100 + d) as u32,
                        ),
                        _ => None,
                    }
                },
            },
        },
    }
}

/// A decimal port, with the optional leading `+` that the standard number
/// parser accepts.
pub open spec fn parse_u16(s: Seq<u8>) -> Option<u16> {
    let t = if s.len() > 0 && s[0] == 43 {
        s.skip(1)
    } else {
        s
    };
    if t.len() > 0 && all_digits(t) && dec_val(t) <= 65535 {
        Some(dec_val(t) as u16)
    } else {
        None
    }
}

/// One part of a query name.
#[derive(Debug, Clone, PartialEq, Eq)]
pub enum HostPart {
    /// A dotted IPv4 literal.
    Ip4(u32),
    /// `r---e.<name>`: the caller resolves `<name>` to an IPv4 address.
    Resolve(Vec<u8>),
    /// A domain carried verbatim.
    Name(Vec<u8>),
}

/// The mathematical content of a part.
pub enum HostPartView {
    Ip4(u32),
    Resolve(Seq<u8>),
    Name(Seq<u8>),
}

impl View for HostPart {
    type V = HostPartView;

    open spec fn view(&self) -> HostPartView {
        match self {
            HostPart::Ip4(a) => HostPartView::Ip4(*a),
            HostPart::Resolve(n) => HostPartView::Resolve(n@),
            HostPart::Name(n) => HostPartView::Name(n@),
        }
    }
}

/// How one lowercased part reads: an IPv4 literal first, then the resolution
/// request, then a verbatim domain.
pub open spec fn parse_part(p: Seq<u8>) -> HostPartView {
    match parse_ipv4(p) {
        Some(a) => HostPartView::Ip4(a),
        None => if p.len() >= 6 && p.subrange(0, 6) == resolve_prefix() {
            HostPartView::Resolve(p.skip(6))
        } else {
            HostPartView::Name(p)
        },
    }
}

/// A parsed query name: the target part, and the upstream part with its port
/// when the four-part form was used.
#[derive(Debug, Clone, PartialEq, Eq)]
pub struct QueryParts {
    pub target: HostPart,
    pub upstream: Option<(HostPart, u16)>,
}

/// The mathematical content of a parsed query.
pub struct QueryView {
    pub target: HostPartView,
    pub upstream: Option<(HostPartView, u16)>,
}

impl View for QueryParts {
    type V = QueryView;

    open spec fn view(&self) -> QueryView {
        QueryView {
            target: self.target@,
            upstream: match self.upstream {
                Some((h, p)) => Some((h@, p)),
                None => None,
            },
        }
    }
}

/// What a query name parses to: the name is lowercased, split at the
/// separator into exactly two or four parts (the last, after the trailing
/// separator, ignored in both forms, and the second ignored in the two-part
/// form), and the four-part form's third part must be a port.
pub open spec fn spec_parse_query(name: Seq<u8>) -> Result<QueryView, CodecError> {
    let s = lower(name);
    match find_sep_from(s, 0) {
        None => Err(CodecError::MalformedAddress),
        Some(i1) => {
            let target = parse_part(s.subrange(0, i1));
            match find_sep_from(s, i1 + 7) {
                None => Ok(QueryView { target, upstream: None }),
                Some(i2) => match find_sep_from(s, i2 + 7) {
                    None => Err(CodecError::MalformedAddress),
                    Some(i3) => if find_sep_from(s, i3 + 7) is Some {
                        Err(CodecError::MalformedAddress)
                    } else {
                        match parse_u16(s.subrange(i2 + 7, i3)) {
                            None => Err(CodecError::MalformedAddress),
                            Some(port) => Ok(
                                QueryView {
                                    target,
                                    upstream: Some((parse_part(s.subrange(i1 + 7, i2)), port)),
                                },
                            ),
                        }
                    },
                },
            }
        },
    }
}

/// Copies the bytes of `s` between `a` and `b`.
pub fn sub_vec(s: &Vec<u8>, a: usize, b: usize) -> (r: Vec<u8>)
    requires
        a <= b <= s@.len(),
    ensures
        r@ == s@.subrange(a as int, b as int),
{
    let mut r: Vec<u8> = Vec::new();
    let mut i: usize = a;
    while i < b
        invariant
            a <= i <= b <= s@.len(),
            r@ == s@.subrange(a as int, i as int),
        decreases b - i,
    {
        proof {
            assert(s@.subrange(a as int, i as int + 1)
                =~= s@.subrange(a as int, i as int).push(s@[i as int]));
        }
        r.push(s[i]);
        i = i + 1;
    }
    r
}

/// Whether the separator stands at position `i`.
fn is_sep_at(s: &Vec<u8>, i: usize) -> (r: bool)
    requires
        i + 7 <= s@.len(),
    ensures
        r == (s@.subrange(i as int, i as int + 7) == sep()),
{
    let _sl = s.len();
    let r = s[i] == 46 && s[i + 1] == 115 && s[i + 2] == 45 && s[i + 3] == 45 && s[i + 4] == 45
        && s[i + 5] == 116 && s[i + 6] == 46;
    proof {
        let g = s@.subrange(i as int, i as int + 7);
        if r {
            assert(g =~= sep());
        } else {
            if g == sep() {
                assert(g[0] == s@[i as int] && g[1] == s@[i as int + 1] && g[2] == s@[i as int + 2]
                    && g[3] == s@[i as int + 3] && g[4] == s@[i as int + 4]
                    && g[5] == s@[i as int + 5] && g[6] == s@[i as int + 6]);
            }
        }
    }
    r
}

/// Finds the first separator at or after `from`.
pub fn find_sep(s: &Vec<u8>, from: usize) -> (r: Option<usize>)
    requires
        from <= s@.len(),
    ensures
        match r {
            Some(i) => find_sep_from(s@, from as int) == Some(i as int) && from <= i && i + 7
                <= s@.len(),
            None => find_sep_from(s@, from as int) is None,
        },
{
    let len = s.len();
    if len < 7 || from > len - 7 {
        return None;
    }
    let mut i = from;
    while i <= len - 7
        invariant
            from <= i,
            i <= len - 7 + 1,
            len >= 7,
            len == s@.len(),
            find_sep_from(s@, from as int) == find_sep_from(s@, i as int),
        decreases len - i,
    {
        if is_sep_at(s, i) {
            return Some(i);
        }
        i = i + 1;
    }
    None
}

/// Finds the first `b` at or after `from`.
fn find_byte(s: &Vec<u8>, b: u8, from: usize) -> (r: Option<usize>)
    requires
        from <= s@.len(),
    ensures
        match r {
            Some(i) => find_byte_from(s@, b, from as int) == Some(i as int) && from <= i && i
                < s@.len() && s@[i as int] == b,
            None => find_byte_from(s@, b, from as int) is None,
        },
{
    let len = s.len();
    let mut i = from;
    while i < len
        invariant
            from <= i <= len,
            len == s@.len(),
            find_byte_from(s@, b, from as int) == find_byte_from(s@, b, i as int),
        decreases len - i,
    {
        if s[i] == b {
            return Some(i);
        }
        i = i + 1;
    }
    None
}

/// Reads the digits of `s` between `a` and `b` as one octet of a dotted
/// quad.
fn parse_octet_x(s: &Vec<u8>, a: usize, b: usize) -> (r: Option<u32>)
    requires
        a <= b <= s@.len(),
    ensures
        match r {
            Some(v) => parse_octet(s@.subrange(a as int, b as int)) == Some(v as int) && v <= 255,
            None => parse_octet(s@.subrange(a as int, b as int)) is None,
        },
{
    let ghost g = s@.subrange(a as int, b as int);
    let n = b - a;
    if n < 1 || n > 3 {
        return None;
    }
    if s[a] == 48 && n != 1 {
        return None;
    }
    let mut acc: u32 = 0;
    let mut i: usize = a;
    while i < b
        invariant
            a <= i <= b <= s@.len(),
            b - a <= 3,
            g == s@.subrange(a as int, b as int),
            all_digits(s@.subrange(a as int, i as int)),
            acc as int == dec_val(s@.subrange(a as int, i as int)),
            acc <= 999,
        decreases b - i,
    {
        let c = s[i];
        if c < 48 || c > 57 {
            proof {
                assert(g[i - a] == c);
                assert(!all_digits(g));
            }
            return None;
        }
        proof {
            let cur = s@.subrange(a as int, i as int);
            let nxt = s@.subrange(a as int, i as int + 1);
            assert(nxt =~= cur.push(c));
            assert(nxt.drop_last() =~= cur);
            assert(dec_val(nxt) == 10 * dec_val(cur) + (c - 48));
            assert(all_digits(nxt));
            lemma_dec_val_nonneg(cur);
            lemma_dec_val_max(nxt);
        }
        acc = 10 * acc + (c - 48) as u32;
        i = i + 1;
    }
    proof {
        assert(s@.subrange(a as int, b as int) == g);
    }
    if acc > 255 {
        return None;
    }
    Some(acc)
}

/// A digit string's value is not negative.
proof fn lemma_dec_val_nonneg(s: Seq<u8>)
    requires
        all_digits(s),
    ensures
        dec_val(s) >= 0,
    decreases s.len(),
{
    if s.len() > 0 {
        assert(all_digits(s.drop_last()));
        lemma_dec_val_nonneg(s.drop_last());
    }
}

/// At most three digits read to at most 999.
proof fn lemma_dec_val_max(s: Seq<u8>)
    requires
        all_digits(s),
        s.len() <= 3,
    ensures
        dec_val(s) <= 999,
        s.len() <= 2 ==> dec_val(s) <= 99,
        s.len() <= 1 ==> dec_val(s) <= 9,
    decreases s.len(),
{
    if s.len() > 0 {
        assert(all_digits(s.drop_last()));
        lemma_dec_val_max(s.drop_last());
        assert(s.last() - 48 <= 9);
    }
}

/// Reads a dotted-quad IPv4 literal.
pub fn parse_ipv4_x(s: &Vec<u8>) -> (r: Option<u32>)
    ensures
        r == parse_ipv4(s@),
{
    let _sl = s.len();
    let d1 = match find_byte(s, 46, 0) {
        Some(x) => x,
        None => {
            return None;
        },
    };
    let d2 = match find_byte(s, 46, d1 + 1) {
        Some(x) => x,
        None => {
            return None;
        },
    };
    let d3 = match find_byte(s, 46, d2 + 1) {
        Some(x) => x,
        None => {
            return None;
        },
    };
    match find_byte(s, 46, d3 + 1) {
        Some(_) => {
            return None;
        },
        None => {},
    }
    let a = match parse_octet_x(s, 0, d1) {
        Some(x) => x,
        None => {
            return None;
        },
    };
    let b = match parse_octet_x(s, d1 + 1, d2) {
        Some(x) => x,
        None => {
            return None;
        },
    };
    let c = match parse_octet_x(s, d2 + 1, d3) {
        Some(x) => x,
        None => {
            return None;
        },
    };
    let d = match parse_octet_x(s, d3 + 1, s.len()) {
        Some(x) => x,
        None => {
            return None;
        },
    };
    proof {
        assert(s@.skip(d3 as int + 1) =~= s@.subrange(d3 as int + 1, s@.len() as int));
    }
    Some(a * 0x1000000 + b * 0x10000 + c * 0x100 + d)
}

/// Reads a decimal port number.
pub fn parse_u16_x(s: &Vec<u8>) -> (r: Option<u16>)
    ensures
        r == parse_u16(s@),
{
    let skip_plus: usize = if s.len() > 0 && s[0] == 43 {
        1
    } else {
        0
    };
    let ghost t = if s@.len() > 0 && s@[0] == 43 {
        s@.skip(1)
    } else {
        s@
    };
    proof {
        assert(t =~= s@.subrange(skip_plus as int, s@.len() as int));
    }
    if s.len() == skip_plus {
        return None;
    }
    let mut acc: u32 = 0;
    let mut over: bool = false;
    let mut i: usize = skip_plus;
    while i < s.len()
        invariant
            skip_plus <= i <= s@.len(),
            t == s@.subrange(skip_plus as int, s@.len() as int),
            t == (if s@.len() > 0 && s@[0] == 43 {
                s@.skip(1)
            } else {
                s@
            }),
            all_digits(s@.subrange(skip_plus as int, i as int)),
            !over ==> acc as int == dec_val(s@.subrange(skip_plus as int, i as int)) && acc
                <= 65535,
            over ==> dec_val(s@.subrange(skip_plus as int, i as int)) > 65535,
        decreases s@.len() - i,
    {
        let c = s[i];
        if c < 48 || c > 57 {
            proof {
                assert(t[i - skip_plus] == c);
                assert(!all_digits(t));
            }
            return None;
        }
        proof {
            let cur = s@.subrange(skip_plus as int, i as int);
            let nxt = s@.subrange(skip_plus as int, i as int + 1);
            assert(nxt =~= cur.push(c));
            assert(nxt.drop_last() =~= cur);
            assert(dec_val(nxt) == 10 * dec_val(cur) + (c - 48));
            if !over {
                lemma_dec_val_nonneg(cur);
            }
        }
        if !over {
            let v: u32 = 10 * acc + (c - 48) as u32;
            if v > 65535 {
                over = true;
            } else {
                acc = v;
            }
        }
        i = i + 1;
    }
    proof {
        assert(s@.subrange(skip_plus as int, s@.len() as int) == t);
    }
    if over {
        None
    } else {
        Some(acc as u16)
    }
}

/// Classifies one lowercased part.
pub fn classify_part(p: Vec<u8>) -> (r: HostPart)
    ensures
        r@ == parse_part(p@),
{
    match parse_ipv4_x(&p) {
        Some(a) => HostPart::Ip4(a),
        None => {
            if p.len() >= 6 && p[0] == 114 && p[1] == 45 && p[2] == 45 && p[3] == 45 && p[4] == 101
                && p[5] == 46 {
                proof {
                    assert(p@.subrange(0, 6) =~= resolve_prefix());
                }
                let rest = sub_vec(&p, 6, p.len());
                proof {
                    assert(rest@ =~= p@.skip(6));
                }
                HostPart::Resolve(rest)
            } else {
                proof {
                    if p@.len() >= 6 && p@.subrange(0, 6) == resolve_prefix() {
                        let g = p@.subrange(0, 6);
                        assert(g[0] == p@[0] && g[1] == p@[1] && g[2] == p@[2] && g[3] == p@[3]
                            && g[4] == p@[4] && g[5] == p@[5]);
                    }
                }
                HostPart::Name(p)
            }
        },
    }
}

/// Parses a query name: lowercases it, splits it at the separator, and
/// classifies the parts, exactly as `spec_parse_query` reads it.
pub fn parse_query_name(name: &Vec<u8>) -> (r: Result<QueryParts, CodecError>)
    ensures
        match (r, spec_parse_query(name@)) {
            (Ok(q), Ok(qv)) => q@ == qv,
            (Err(e1), Err(e2)) => e1 == e2,
            _ => false,
        },
{
    let low = lower_bytes(name);
    let i1 = match find_sep(&low, 0) {
        Some(x) => x,
        None => {
            return Err(CodecError::MalformedAddress);
        },
    };
    let target = classify_part(sub_vec(&low, 0, i1));
    match find_sep(&low, i1 + 7) {
        None => Ok(QueryParts { target, upstream: None }),
        Some(i2) => {
            let i3 = match find_sep(&low, i2 + 7) {
                Some(x) => x,
                None => {
                    return Err(CodecError::MalformedAddress);
                },
            };
            match find_sep(&low, i3 + 7) {
                Some(_) => Err(CodecError::MalformedAddress),
                None => {
                    let port_part = sub_vec(&low, i2 + 7, i3);
                    let port = match parse_u16_x(&port_part) {
                        Some(p) => p,
                        None => {
                            return Err(CodecError::MalformedAddress);
                        },
                    };
                    let upstream = classify_part(sub_vec(&low, i1 + 7, i2));
                    Ok(QueryParts { target, upstream: Some((upstream, port)) })
                },
            }
        },
    }
}

/// Whether any part of the query asks for system resolution.
pub open spec fn needs_resolve(q: QueryView) -> bool {
    q.target matches HostPartView::Resolve(_) || (q.upstream matches Some((h, _))
        && h matches HostPartView::Resolve(_))
}

/// The target a part stands for, at a given port.
pub open spec fn part_target(h: HostPartView, port: u16) -> TargetView {
    match h {
        HostPartView::Ip4(a) => TargetView::Ip4 { addr: a, port },
        HostPartView::Name(n) => TargetView::Dom { name: n, port },
        HostPartView::Resolve(n) => TargetView::Dom { name: n, port },
    }
}

/// The upstream a parsed query names: the default sentinel in the two-part
/// form.
pub open spec fn upstream_target(q: QueryView) -> TargetView {
    match q.upstream {
        None => TargetView::Ip4 { addr: 0u32, port: 0u16 },
        Some((h, p)) => part_target(h, p),
    }
}

/// The encoder inputs of a parsed query whose parts need no system
/// resolution: the target (with port 0, since the codec carries no target
/// port) and the upstream.
pub fn query_targets(q: &QueryParts) -> (r: Option<(Socks5Target, Socks5Target)>)
    ensures
        match r {
            Some((t, u)) => !needs_resolve(q@) && t@ == part_target(q@.target, 0)
                && u@ == upstream_target(q@),
            None => needs_resolve(q@),
        },
{
    let target = match &q.target {
        HostPart::Ip4(a) => Socks5Target::IP4(*a, 0),
        HostPart::Name(n) => Socks5Target::Domain(copy_bytes(n), 0),
        HostPart::Resolve(_) => {
            return None;
        },
    };
    let upstream = match &q.upstream {
        None => Socks5Target::IP4(0, 0),
        Some((h, p)) => match h {
            HostPart::Ip4(a) => Socks5Target::IP4(*a, *p),
            HostPart::Name(n) => Socks5Target::Domain(copy_bytes(n), *p),
            HostPart::Resolve(_) => {
                return None;
            },
        },
    };
    Some((target, upstream))
}

} // verus!
