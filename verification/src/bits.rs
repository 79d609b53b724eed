//! Big-endian bit streams over byte buffers.
//!
//! The synthetic-address codec works on the 128 bits of an IPv6 address. This
//! module gives the bit-level model: a bit string is a `Seq<bool>`, its value
//! read as a big-endian number is `be_val`, and `be_bits` is the canonical
//! `n`-bit representation of a value. `unpack` views a byte buffer as its bit
//! string; packing is proved to invert it.

use vstd::prelude::*;
use vstd::arithmetic::power2::{pow2, lemma_pow2_unfold, lemma_pow2_pos, lemma2_to64};
use vstd::arithmetic::div_mod::lemma_mod_breakdown;

verus! {

/// The value of a bit string read as a big-endian natural number.
pub open spec fn be_val(s: Seq<bool>) -> int
    decreases s.len(),
{
    if s.len() == 0 {
        0
    } else {
        2 * be_val(s.drop_last()) + if s.last() { 1int } else { 0int }
    }
}

/// The `n`-bit big-endian representation of `v` (of its low `n` bits, if `v`
/// does not fit).
pub open spec fn be_bits(v: int, n: nat) -> Seq<bool>
    decreases n,
{
    if n == 0 {
        Seq::empty()
    } else {
        be_bits(v / 2, (n - 1) as nat).push(v % 2 == 1)
    }
}

/// One bit of a byte, counted from the most significant side.
pub open spec fn byte_bit(b: u8, k: int) -> bool {
    (b >> ((7 - k) as u8)) & 1 == 1
}

/// The bit string that a byte buffer carries, big-endian within each byte.
pub open spec fn unpack(bytes: Seq<u8>) -> Seq<bool> {
    Seq::new((bytes.len() * 8) as nat, |i: int| byte_bit(bytes[i / 8], i % 8))
}

/// `s` extended with zero bits to 128 bits.
pub open spec fn pad128(s: Seq<bool>) -> Seq<bool> {
    Seq::new(128, |i: int| 0 <= i < s.len() && s[i])
}

/// The 16 bytes that carry a 128-bit string.
pub open spec fn pack16(s: Seq<bool>) -> Seq<u8> {
    Seq::new(16, |j: int| be_val(s.subrange(8 * j, 8 * j + 8)) as u8)
}

pub proof fn lemma_be_val_push(s: Seq<bool>, b: bool)
    ensures
        be_val(s.push(b)) == 2 * be_val(s) + if b { 1int } else { 0int },
{
    assert(s.push(b).drop_last() =~= s);
}

pub proof fn lemma_be_bits_len(v: int, n: nat)
    ensures
        be_bits(v, n).len() == n,
    decreases n,
{
    if n > 0 {
        lemma_be_bits_len(v / 2, (n - 1) as nat);
    }
}

pub proof fn lemma_be_val_be_bits(v: int, n: nat)
    requires
        0 <= v,
    ensures
        be_val(be_bits(v, n)) == v % (pow2(n) as int),
    decreases n,
{
    if n == 0 {
        lemma2_to64();
        assert(v % 1 == 0);
    } else {
        lemma_be_val_be_bits(v / 2, (n - 1) as nat);
        lemma_pow2_pos((n - 1) as nat);
        lemma_pow2_unfold(n);
        lemma_mod_breakdown(v, 2, pow2((n - 1) as nat) as int);
        lemma_be_val_push(be_bits(v / 2, (n - 1) as nat), v % 2 == 1);
        assert(0 <= v % 2 < 2) by (nonlinear_arith)
            requires 0 <= v;
        assert(pow2(n) as int == 2 * (pow2((n - 1) as nat) as int));
        assert(2 * ((v / 2) % (pow2((n - 1) as nat) as int)) + if v % 2 == 1 { 1int } else { 0int }
            == v % (pow2(n) as int));
    }
}

/// `be_bits` inverts `be_val` exactly on values that fit in `n` bits.
pub proof fn lemma_be_val_be_bits_small(v: int, n: nat)
    requires
        0 <= v < pow2(n),
    ensures
        be_val(be_bits(v, n)) == v,
{
    lemma_be_val_be_bits(v, n);
    assert(v % (pow2(n) as int) == v) by {
        vstd::arithmetic::div_mod::lemma_small_mod(v as nat, pow2(n));
    }
}

pub proof fn lemma_be_val_bound(s: Seq<bool>)
    ensures
        0 <= be_val(s) < pow2(s.len()),
    decreases s.len(),
{
    if s.len() == 0 {
        lemma2_to64();
    } else {
        lemma_be_val_bound(s.drop_last());
        lemma_pow2_unfold(s.len());
    }
}

/// Bit strings of equal length with the same value are equal.
pub proof fn lemma_be_val_injective(s1: Seq<bool>, s2: Seq<bool>)
    requires
        s1.len() == s2.len(),
        be_val(s1) == be_val(s2),
    ensures
        s1 == s2,
    decreases s1.len(),
{
    if s1.len() > 0 {
        lemma_be_val_bound(s1.drop_last());
        lemma_be_val_bound(s2.drop_last());
        assert(be_val(s1.drop_last()) == be_val(s2.drop_last()) && s1.last() == s2.last());
        lemma_be_val_injective(s1.drop_last(), s2.drop_last());
        assert(s1 =~= s1.drop_last().push(s1.last()));
        assert(s2 =~= s2.drop_last().push(s2.last()));
    } else {
        assert(s1 =~= s2);
    }
}

pub proof fn lemma_be_val_concat(s1: Seq<bool>, s2: Seq<bool>)
    ensures
        be_val(s1 + s2) == be_val(s1) * pow2(s2.len()) + be_val(s2),
    decreases s2.len(),
{
    if s2.len() == 0 {
        assert(s1 + s2 =~= s1);
        lemma2_to64();
        assert(pow2(s2.len()) == 1);
        assert(be_val(s1) * pow2(s2.len()) == be_val(s1) * 1) by (nonlinear_arith)
            requires pow2(s2.len()) == 1;
    } else {
        lemma_be_val_concat(s1, s2.drop_last());
        assert((s1 + s2).drop_last() =~= s1 + s2.drop_last());
        assert((s1 + s2).last() == s2.last());
        lemma_pow2_unfold(s2.len());
        let a = be_val(s1);
        let p = pow2((s2.len() - 1) as nat) as int;
        let lb = if s2.last() { 1int } else { 0int };
        assert(be_val(s1 + s2) == 2 * be_val(s1 + s2.drop_last()) + lb);
        assert(pow2(s2.len()) as int == 2 * p);
        assert(be_val(s2) == 2 * be_val(s2.drop_last()) + lb);
        assert(s2.drop_last().len() == s2.len() - 1);
        assert(be_val(s1 + s2.drop_last()) == a * p + be_val(s2.drop_last()));
        assert(2 * (a * p) == a * (2 * p)) by (nonlinear_arith);
        assert(be_val(s1 + s2) == a * (2 * p) + 2 * be_val(s2.drop_last()) + lb);
        assert(be_val(s1 + s2) == a * (pow2(s2.len()) as int) + be_val(s2));
    }
}

pub proof fn lemma_be_val_zeros(s: Seq<bool>)
    requires
        forall|i: int| 0 <= i < s.len() ==> !s[i],
    ensures
        be_val(s) == 0,
    decreases s.len(),
{
    if s.len() > 0 {
        lemma_be_val_zeros(s.drop_last());
    }
}

/// The bits of a single byte, most significant first, read back as that byte.
pub proof fn lemma_byte_bits_val(b: u8)
    ensures
        be_val(Seq::new(8, |k: int| byte_bit(b, k))) == b,
{
    let s = Seq::new(8, |k: int| byte_bit(b, k));
    let b0 = if byte_bit(b, 0) { 1int } else { 0int };
    let b1 = if byte_bit(b, 1) { 1int } else { 0int };
    let b2 = if byte_bit(b, 2) { 1int } else { 0int };
    let b3 = if byte_bit(b, 3) { 1int } else { 0int };
    let b4 = if byte_bit(b, 4) { 1int } else { 0int };
    let b5 = if byte_bit(b, 5) { 1int } else { 0int };
    let b6 = if byte_bit(b, 6) { 1int } else { 0int };
    let b7 = if byte_bit(b, 7) { 1int } else { 0int };
    assert(s =~= seq![
        byte_bit(b, 0), byte_bit(b, 1), byte_bit(b, 2), byte_bit(b, 3),
        byte_bit(b, 4), byte_bit(b, 5), byte_bit(b, 6), byte_bit(b, 7),
    ]);
    assert(be_val(s) == 128 * b0 + 64 * b1 + 32 * b2 + 16 * b3 + 8 * b4 + 4 * b5 + 2 * b6 + b7)
        by {
        reveal_with_fuel(be_val, 9);
        assert(s.drop_last() =~= s.take(7));
        assert(s.take(7).drop_last() =~= s.take(6));
        assert(s.take(6).drop_last() =~= s.take(5));
        assert(s.take(5).drop_last() =~= s.take(4));
        assert(s.take(4).drop_last() =~= s.take(3));
        assert(s.take(3).drop_last() =~= s.take(2));
        assert(s.take(2).drop_last() =~= s.take(1));
        assert(s.take(1).drop_last() =~= s.take(0));
        assert(s.take(0).len() == 0);
    }
    assert((b >> 7u8) & 1 <= 1 && (b >> 6u8) & 1 <= 1 && (b >> 5u8) & 1 <= 1
        && (b >> 4u8) & 1 <= 1 && (b >> 3u8) & 1 <= 1 && (b >> 2u8) & 1 <= 1
        && (b >> 1u8) & 1 <= 1 && (b >> 0u8) & 1 <= 1
        && 128 * (((b >> 7u8) & 1) as int) + 64 * (((b >> 6u8) & 1) as int)
        + 32 * (((b >> 5u8) & 1) as int) + 16 * (((b >> 4u8) & 1) as int)
        + 8 * (((b >> 3u8) & 1) as int) + 4 * (((b >> 2u8) & 1) as int)
        + 2 * (((b >> 1u8) & 1) as int) + (((b >> 0u8) & 1) as int) == b as int) by (bit_vector);
}

/// Each byte's bit group within `unpack` is the byte's own bit string.
pub proof fn lemma_unpack_byte(bytes: Seq<u8>, j: int)
    requires
        0 <= j < bytes.len(),
    ensures
        unpack(bytes).subrange(8 * j, 8 * j + 8) =~= Seq::new(8, |k: int| byte_bit(bytes[j], k)),
        be_val(unpack(bytes).subrange(8 * j, 8 * j + 8)) == bytes[j],
{
    let g = unpack(bytes).subrange(8 * j, 8 * j + 8);
    assert forall|k: int| 0 <= k < 8 implies g[k] == byte_bit(bytes[j], k) by {
        assert((8 * j + k) / 8 == j && (8 * j + k) % 8 == k) by {
            vstd::arithmetic::div_mod::lemma_fundamental_div_mod_converse(8 * j + k, 8, j, k);
        }
    }
    assert(g =~= Seq::new(8, |k: int| byte_bit(bytes[j], k)));
    lemma_byte_bits_val(bytes[j]);
}

/// Packing 128 bits into 16 bytes and viewing them as bits again is the identity.
pub proof fn lemma_unpack_pack16(s: Seq<bool>)
    requires
        s.len() == 128,
    ensures
        unpack(pack16(s)) == s,
{
    let bytes = pack16(s);
    assert forall|i: int| 0 <= i < 128 implies #[trigger] unpack(bytes)[i] == s[i] by {
        let j = i / 8;
        vstd::arithmetic::div_mod::lemma_fundamental_div_mod(i, 8);
        vstd::arithmetic::div_mod::lemma_mod_bound(i, 8);
        assert(0 <= j < 16);
        assert(8 * j <= i < 8 * j + 8);
        let g = s.subrange(8 * j, 8 * j + 8);
        lemma_be_val_bound(g);
        lemma2_to64();
        assert(bytes[j] == be_val(g) as u8);
        assert(bytes[j] as int == be_val(g));
        lemma_unpack_byte(bytes, j);
        lemma_be_val_injective(unpack(bytes).subrange(8 * j, 8 * j + 8), g);
        assert(unpack(bytes).subrange(8 * j, 8 * j + 8)[i - 8 * j] == g[i - 8 * j]);
    }
    assert(unpack(bytes) =~= s);
}

/// Appends the `n`-bit big-endian representation of `v` to a bit vector.
pub fn push_bits_be(bits: &mut Vec<bool>, v: u32, n: usize)
    requires
        n <= 32,
    ensures
        final(bits)@ == old(bits)@ + be_bits(v as int, n as nat),
{
    let ghost orig = bits@;
    let mut j: usize = 0;
    while j < n
        invariant
            j <= n,
            n <= 32,
            bits@ =~= orig + be_bits((v >> ((n - j) as u32)) as int, j as nat),
        decreases n - j,
    {
        let k: u32 = (n - 1 - j) as u32;
        let b: bool = (v >> k) & 1 == 1;
        proof {
            let w = v >> k;
            assert(w / 2 == v >> (k + 1) && ((w % 2 == 1) == ((w & 1) == 1))) by (bit_vector)
                requires k < 32 && w == v >> k,
            ;
            assert((w as int) / 2 == (w / 2) as int);
            assert((w as int) % 2 == (w % 2) as int);
            assert(be_bits(w as int, (j + 1) as nat)
                == be_bits((v >> (k + 1)) as int, j as nat).push(b));
            assert(k + 1 == (n - j) as u32);
            assert(bits@.push(b) =~= orig + be_bits(w as int, (j + 1) as nat));
        }
        bits.push(b);
        j = j + 1;
    }
    proof {
        assert(v >> 0u32 == v) by (bit_vector);
        assert(bits@ =~= orig + be_bits(v as int, n as nat));
    }
}

/// Reads `n` bits starting at `p` as a big-endian value.
pub fn read_bits_be(bits: &Vec<bool>, p: usize, n: usize) -> (r: u32)
    requires
        n <= 32,
        p + n <= bits@.len(),
    ensures
        r as int == be_val(bits@.subrange(p as int, p as int + n as int)),
{
    let len = bits.len();
    let mut acc: u32 = 0;
    let mut j: usize = 0;
    while j < n
        invariant
            j <= n,
            n <= 32,
            p + n <= len,
            len == bits@.len(),
            acc as int == be_val(bits@.subrange(p as int, p as int + j as int)),
        decreases n - j,
    {
        proof {
            lemma_be_val_bound(bits@.subrange(p as int, p as int + j as int));
            assert(pow2(j as nat) <= pow2(31)) by {
                if (j as nat) < 31 {
                    vstd::arithmetic::power2::lemma_pow2_strictly_increases(j as nat, 31);
                }
            }
            lemma2_to64();
            let cur = bits@.subrange(p as int, p as int + j as int);
            let nxt = bits@.subrange(p as int, p as int + j as int + 1);
            assert(nxt =~= cur.push(bits@[p as int + j as int]));
            lemma_be_val_push(cur, bits@[p as int + j as int]);
        }
        let b = bits[p + j];
        acc = 2 * acc + if b { 1 } else { 0 };
        j = j + 1;
    }
    acc
}

/// Converts a bit vector of at most 128 bits into the 16 bytes that carry it,
/// padding with zero bits.
pub fn bits_to_bytes(bits: &Vec<bool>) -> (r: Vec<u8>)
    requires
        bits@.len() <= 128,
    ensures
        r@ == pack16(pad128(bits@)),
{
    let padded_len: usize = 128;
    let mut out: Vec<u8> = Vec::new();
    let ghost p = pad128(bits@);
    let mut j: usize = 0;
    while j < 16
        invariant
            j <= 16,
            bits@.len() <= 128,
            p == pad128(bits@),
            out@.len() == j,
            forall|t: int| 0 <= t < j ==> out@[t] == pack16(p)[t],
        decreases 16 - j,
    {
        let mut acc: u32 = 0;
        let mut k: usize = 0;
        while k < 8
            invariant
                k <= 8,
                j < 16,
                bits@.len() <= 128,
                p == pad128(bits@),
                acc as int == be_val(p.subrange(8 * j as int, 8 * j as int + k as int)),
            decreases 8 - k,
        {
            let idx = 8 * j + k;
            let b: bool = if idx < bits.len() { bits[idx] } else { false };
            proof {
                let cur = p.subrange(8 * j as int, 8 * j as int + k as int);
                let nxt = p.subrange(8 * j as int, 8 * j as int + k as int + 1);
                assert(b == p[idx as int]);
                assert(nxt =~= cur.push(p[idx as int]));
                lemma_be_val_push(cur, p[idx as int]);
                lemma_be_val_bound(cur);
                if (k as nat) < 7 {
                    vstd::arithmetic::power2::lemma_pow2_strictly_increases(k as nat, 7);
                }
                lemma2_to64();
            }
            acc = 2 * acc + if b { 1 } else { 0 };
            k = k + 1;
        }
        proof {
            lemma_be_val_bound(p.subrange(8 * j as int, 8 * j as int + 8));
            lemma2_to64();
        }
        out.push(acc as u8);
        j = j + 1;
    }
    proof {
        assert(out@ =~= pack16(p));
    }
    out
}

} // verus!
