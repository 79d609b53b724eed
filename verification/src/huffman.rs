//! The fixed 47-symbol Huffman alphabet of the address codec.
//!
//! Symbols are, in order: the `End` marker, the 26 lowercase letters, the 13
//! punctuation and digit characters `. - 0..9 _`, and 7 composite tokens
//! (`www.`, `.com`, `.net`, `.org`, `.edu`, `.gov`, `.info`). A symbol with
//! index below 31 is coded as 5 big-endian bits of its index; the all-ones
//! 5-bit pattern is reserved as an escape that introduces 4 more bits holding
//! `index - 31`. The code is prefix-free (`lemma_huffman_prefix_free`), and
//! decoding a coded symbol run recovers it exactly (`lemma_decode_encoded`).

use vstd::prelude::*;
use vstd::arithmetic::power2::lemma2_to64;
use crate::bits::{be_bits, be_val, lemma_be_bits_len, lemma_be_val_be_bits_small, lemma_be_val_bound};

verus! {

/// One symbol of the codec alphabet: the end marker, a single character
/// (as its ASCII byte), or a composite token given by its index in the
/// composite table.
#[derive(Debug, Clone, Copy, PartialEq, Eq, Structural)]
pub enum DomainCode {
    End,
    Char(u8),
    Composite(u8),
}

/// The symbol index of an encodable character, if any.
pub open spec fn char_sym(c: u8) -> Option<int> {
    if 97 <= c <= 122 {
        Some(1 + (c - 97) as int)
    } else if c == 46 {
        Some(27)
    } else if c == 45 {
        Some(28)
    } else if 48 <= c <= 57 {
        Some(29 + (c - 48) as int)
    } else if c == 95 {
        Some(39)
    } else {
        None
    }
}

/// The character of a single-character symbol index (1 to 39).
pub open spec fn sym_char(s: int) -> u8 {
    if 1 <= s <= 26 {
        (s - 1 + 97) as u8
    } else if s == 27 {
        46
    } else if s == 28 {
        45
    } else if 29 <= s <= 38 {
        (s - 29 + 48) as u8
    } else {
        95
    }
}

/// The bytes of composite token `k` (0 to 6).
pub open spec fn composite_bytes(k: int) -> Seq<u8> {
    if k == 0 {
        seq![119, 119, 119, 46]
    } else if k == 1 {
        seq![46, 99, 111, 109]
    } else if k == 2 {
        seq![46, 110, 101, 116]
    } else if k == 3 {
        seq![46, 111, 114, 103]
    } else if k == 4 {
        seq![46, 101, 100, 117]
    } else if k == 5 {
        seq![46, 103, 111, 118]
    } else {
        seq![46, 105, 110, 102, 111]
    }
}

/// The bytes a symbol stands for.
pub open spec fn sym_bytes(s: int) -> Seq<u8> {
    if s < 40 {
        seq![sym_char(s)]
    } else {
        composite_bytes(s - 40)
    }
}

/// The byte expansion of a symbol sequence.
pub open spec fn syms_bytes(syms: Seq<int>) -> Seq<u8>
    decreases syms.len(),
{
    if syms.len() == 0 {
        Seq::empty()
    } else {
        sym_bytes(syms[0]) + syms_bytes(syms.skip(1))
    }
}

/// A character is acceptable to the encoder: in the alphabet, or the
/// backslash that the encoder silently consumes.
pub open spec fn encodable(c: u8) -> bool {
    char_sym(c) is Some || c == 92
}

/// The first composite token that is a prefix of `s`, tried in table order.
pub open spec fn comp_match(s: Seq<u8>) -> Option<int> {
    if composite_bytes(0).is_prefix_of(s) {
        Some(0)
    } else if composite_bytes(1).is_prefix_of(s) {
        Some(1)
    } else if composite_bytes(2).is_prefix_of(s) {
        Some(2)
    } else if composite_bytes(3).is_prefix_of(s) {
        Some(3)
    } else if composite_bytes(4).is_prefix_of(s) {
        Some(4)
    } else if composite_bytes(5).is_prefix_of(s) {
        Some(5)
    } else if composite_bytes(6).is_prefix_of(s) {
        Some(6)
    } else {
        None
    }
}

/// Greedy symbol decomposition of a (lowercased) domain: at each position the
/// first matching composite token wins, a backslash is consumed silently, any
/// other character must be in the alphabet or it is returned as the error.
pub open spec fn tokenize(s: Seq<u8>) -> Result<Seq<int>, u8>
    decreases s.len(),
{
    if s.len() == 0 {
        Ok(Seq::empty())
    } else {
        match comp_match(s) {
            Some(k) => match tokenize(s.skip(composite_bytes(k).len() as int)) {
                Ok(r) => Ok(seq![40 + k] + r),
                Err(c) => Err(c),
            },
            None => {
                if s[0] == 92 {
                    tokenize(s.skip(1))
                } else {
                    match char_sym(s[0]) {
                        Some(i) => match tokenize(s.skip(1)) {
                            Ok(r) => Ok(seq![i] + r),
                            Err(c) => Err(c),
                        },
                        None => Err(s[0]),
                    }
                }
            },
        }
    }
}

/// The code word of a symbol index.
pub open spec fn sym_code(s: int) -> Seq<bool> {
    if s < 31 {
        be_bits(s, 5)
    } else {
        be_bits(31, 5) + be_bits(s - 31, 4)
    }
}

/// The concatenated code words of a symbol sequence.
pub open spec fn symbols_bits(syms: Seq<int>) -> Seq<bool>
    decreases syms.len(),
{
    if syms.len() == 0 {
        Seq::empty()
    } else {
        sym_code(syms[0]) + symbols_bits(syms.skip(1))
    }
}

/// Reads symbols from `bits` starting at `p` until the `End` code word or the
/// end of the stream (truncation counts as `End`); yields the symbols read and
/// the position after the stop.
pub open spec fn decode_syms(bits: Seq<bool>, p: int) -> (Seq<int>, int)
    decreases bits.len() - p,
{
    if p < 0 || p + 5 > bits.len() {
        (Seq::empty(), bits.len() as int)
    } else {
        let v: int = be_val(bits.subrange(p, p + 5));
        if v == 0 {
            (Seq::empty(), p + 5)
        } else if v == 31 {
            if p + 9 > bits.len() {
                (Seq::empty(), bits.len() as int)
            } else {
                let w: int = be_val(bits.subrange(p + 5, p + 9));
                let r = decode_syms(bits, p + 9);
                (seq![31 + w] + r.0, r.1)
            }
        } else {
            let r = decode_syms(bits, p + 5);
            (seq![v] + r.0, r.1)
        }
    }
}

/// Huffman uniqueness: over the whole alphabet, no symbol's code word is a
/// prefix of another symbol's code word.
pub proof fn lemma_huffman_prefix_free(i: int, j: int)
    requires
        0 <= i < 47,
        0 <= j < 47,
        i != j,
    ensures
        !sym_code(i).is_prefix_of(sym_code(j)),
{
    lemma2_to64();
    lemma_be_bits_len(i, 5);
    lemma_be_bits_len(j, 5);
    lemma_be_bits_len(31, 5);
    lemma_be_bits_len(i - 31, 4);
    lemma_be_bits_len(j - 31, 4);
    if sym_code(i).is_prefix_of(sym_code(j)) {
        if i < 31 && j < 31 {
            assert(sym_code(j).subrange(0, 5) =~= sym_code(j));
            assert(sym_code(i) == sym_code(j));
            lemma_be_val_be_bits_small(i, 5);
            lemma_be_val_be_bits_small(j, 5);
            assert(false);
        } else if i < 31 && j >= 31 {
            assert(sym_code(j).subrange(0, 5) =~= be_bits(31, 5));
            assert(sym_code(i) == be_bits(31, 5));
            lemma_be_val_be_bits_small(i, 5);
            lemma_be_val_be_bits_small(31, 5);
            assert(false);
        } else if i >= 31 && j < 31 {
            assert(sym_code(i).len() == 9 && sym_code(j).len() == 5);
            assert(false);
        } else {
            assert(sym_code(i).len() == 9 && sym_code(j).len() == 9);
            assert(sym_code(i) == sym_code(j).subrange(0, 9));
            assert(sym_code(j).subrange(0, 9) =~= sym_code(j));
            assert(sym_code(i).subrange(5, 9) =~= be_bits(i - 31, 4));
            assert(sym_code(j).subrange(5, 9) =~= be_bits(j - 31, 4));
            lemma_be_val_be_bits_small(i - 31, 4);
            lemma_be_val_be_bits_small(j - 31, 4);
            assert(false);
        }
    }
}

/// Reading a stream that starts with the code word of symbol `s` (not `End`)
/// yields `s` and continues after the code word.
pub proof fn lemma_decode_step(bits: Seq<bool>, p: int, s: int)
    requires
        0 <= p,
        1 <= s < 47,
        p + sym_code(s).len() <= bits.len(),
        bits.subrange(p, p + sym_code(s).len() as int) == sym_code(s),
    ensures
        decode_syms(bits, p).0 == seq![s] + decode_syms(bits, p + sym_code(s).len() as int).0,
        decode_syms(bits, p).1 == decode_syms(bits, p + sym_code(s).len() as int).1,
{
    lemma2_to64();
    if s < 31 {
        lemma_be_bits_len(s, 5);
        lemma_be_val_be_bits_small(s, 5);
        assert(be_val(bits.subrange(p, p + 5)) == s);
    } else {
        lemma_be_bits_len(31, 5);
        lemma_be_bits_len(s - 31, 4);
        assert(sym_code(s).len() == 9);
        assert(bits.subrange(p, p + 5) =~= sym_code(s).subrange(0, 5));
        assert(sym_code(s).subrange(0, 5) =~= be_bits(31, 5));
        lemma_be_val_be_bits_small(31, 5);
        assert(be_val(bits.subrange(p, p + 5)) == 31);
        assert(bits.subrange(p + 5, p + 9) =~= sym_code(s).subrange(5, 9));
        assert(sym_code(s).subrange(5, 9) =~= be_bits(s - 31, 4));
        lemma_be_val_be_bits_small(s - 31, 4);
        assert(be_val(bits.subrange(p + 5, p + 9)) == s - 31);
        assert(decode_syms(bits, p).0 == seq![s] + decode_syms(bits, p + 9).0);
    }
}

/// Round trip of the symbol layer: a coded symbol run (no `End` inside)
/// followed by the `End` code word decodes to exactly those symbols, stopping
/// right after `End`.
pub proof fn lemma_decode_encoded(bits: Seq<bool>, p: int, syms: Seq<int>)
    requires
        0 <= p,
        forall|t: int| 0 <= t < syms.len() ==> 1 <= #[trigger] syms[t] < 47,
        p + symbols_bits(syms).len() + 5 <= bits.len(),
        bits.subrange(p, p + symbols_bits(syms).len() + 5) == symbols_bits(syms) + sym_code(0),
    ensures
        decode_syms(bits, p).0 == syms,
        decode_syms(bits, p).1 == p + symbols_bits(syms).len() + 5,
    decreases syms.len(),
{
    lemma2_to64();
    lemma_be_bits_len(0, 5);
    if syms.len() == 0 {
        assert(symbols_bits(syms).len() == 0);
        assert(bits.subrange(p, p + 5) =~= (symbols_bits(syms) + sym_code(0)));
        assert(bits.subrange(p, p + 5) == be_bits(0, 5));
        lemma_be_val_be_bits_small(0, 5);
        assert(decode_syms(bits, p).0 =~= syms);
    } else {
        let s = syms[0];
        let rest = syms.skip(1);
        let clen = sym_code(s).len() as int;
        assert(symbols_bits(syms) == sym_code(s) + symbols_bits(rest));
        assert(bits.subrange(p, p + clen) =~= sym_code(s)) by {
            assert forall|t: int| 0 <= t < clen implies
                bits.subrange(p, p + clen)[t] == sym_code(s)[t] by {
                assert(bits.subrange(p, p + symbols_bits(syms).len() + 5)[t]
                    == (symbols_bits(syms) + sym_code(0))[t]);
            }
        }
        lemma_decode_step(bits, p, s);
        assert(bits.subrange(p + clen, p + clen + symbols_bits(rest).len() + 5)
            =~= symbols_bits(rest) + sym_code(0)) by {
            assert(symbols_bits(syms).len() == clen + symbols_bits(rest).len());
            assert forall|t: int| 0 <= t < symbols_bits(rest).len() + 5 implies
                bits.subrange(p + clen, p + clen + symbols_bits(rest).len() + 5)[t]
                    == (symbols_bits(rest) + sym_code(0))[t] by {
                assert(bits.subrange(p, p + symbols_bits(syms).len() + 5)[clen + t]
                    == (symbols_bits(syms) + sym_code(0))[clen + t]);
                assert(bits.subrange(p + clen, p + clen + symbols_bits(rest).len() + 5)[t]
                    == bits[p + clen + t]);
                assert(bits.subrange(p, p + symbols_bits(syms).len() + 5)[clen + t]
                    == bits[p + clen + t]);
                if t < symbols_bits(rest).len() {
                    assert((symbols_bits(rest) + sym_code(0))[t] == symbols_bits(rest)[t]);
                    assert((symbols_bits(syms) + sym_code(0))[clen + t]
                        == symbols_bits(syms)[clen + t]);
                    assert(symbols_bits(syms)[clen + t]
                        == (sym_code(s) + symbols_bits(rest))[clen + t]);
                    assert((sym_code(s) + symbols_bits(rest))[clen + t] == symbols_bits(rest)[t]);
                } else {
                    assert((symbols_bits(rest) + sym_code(0))[t]
                        == sym_code(0)[t - symbols_bits(rest).len()]);
                    assert((symbols_bits(syms) + sym_code(0))[clen + t]
                        == sym_code(0)[clen + t - symbols_bits(syms).len()]);
                }
            }
        }
        lemma_decode_encoded(bits, p + clen, rest);
        assert(decode_syms(bits, p).0 =~= syms) by {
            assert(seq![s] + rest =~= syms);
        }
    }
}

/// Expanding the symbols of a successful greedy decomposition of a
/// backslash-free string gives back exactly that string; the symbols are all
/// valid non-`End` symbols, and a non-empty string yields at least one symbol.
pub proof fn lemma_tokenize_bytes(s: Seq<u8>)
    requires
        tokenize(s) is Ok,
        forall|i: int| 0 <= i < s.len() ==> #[trigger] s[i] != 92,
    ensures
        syms_bytes(tokenize(s)->Ok_0) == s,
        forall|t: int| 0 <= t < tokenize(s)->Ok_0.len() ==> 1 <= #[trigger] tokenize(s)->Ok_0[t] < 47,
        s.len() > 0 ==> tokenize(s)->Ok_0.len() > 0,
    decreases s.len(),
{
    if s.len() == 0 {
        assert(syms_bytes(tokenize(s)->Ok_0) =~= s);
    } else {
        let toks = tokenize(s)->Ok_0;
        match comp_match(s) {
            Some(k) => {
                let clen = composite_bytes(k).len() as int;
                let rest = s.skip(clen);
                lemma_tokenize_bytes(rest);
                let rtoks = tokenize(rest)->Ok_0;
                assert(toks == seq![40 + k] + rtoks);
                assert(toks.skip(1) =~= rtoks);
                assert(syms_bytes(toks) == sym_bytes(40 + k) + syms_bytes(rtoks));
                assert(sym_bytes(40 + k) == composite_bytes(k));
                assert(composite_bytes(k) + rest =~= s);
            },
            None => {
                let i = char_sym(s[0])->Some_0;
                let rest = s.skip(1);
                lemma_tokenize_bytes(rest);
                let rtoks = tokenize(rest)->Ok_0;
                assert(toks == seq![i] + rtoks);
                assert(toks.skip(1) =~= rtoks);
                assert(syms_bytes(toks) == sym_bytes(i) + syms_bytes(rtoks));
                assert(sym_bytes(i) =~= seq![s[0]]);
                assert(seq![s[0]] + rest =~= s);
            },
        }
    }
}

/// The greedy decomposition fails exactly when some character is neither in
/// the alphabet nor a backslash.
pub proof fn lemma_tokenize_err_iff(s: Seq<u8>)
    ensures
        tokenize(s) is Err <==> exists|i: int| 0 <= i < s.len() && !encodable(#[trigger] s[i]),
    decreases s.len(),
{
    if s.len() == 0 {
    } else {
        match comp_match(s) {
            Some(k) => {
                let clen = composite_bytes(k).len() as int;
                let rest = s.skip(clen);
                lemma_tokenize_err_iff(rest);
                assert(forall|t: int| 0 <= t < clen ==> encodable(#[trigger] composite_bytes(k)[t]));
                assert(forall|t: int| 0 <= t < clen ==> s[t] == composite_bytes(k)[t]);
                if tokenize(s) is Err {
                    let i = choose|i: int| 0 <= i < rest.len() && !encodable(rest[i]);
                    assert(!encodable(s[i + clen]));
                } else {
                    if exists|i: int| 0 <= i < s.len() && !encodable(s[i]) {
                        let i = choose|i: int| 0 <= i < s.len() && !encodable(#[trigger] s[i]);
                        assert(i >= clen);
                        assert(!encodable(rest[i - clen]));
                        assert(false);
                    }
                }
            },
            None => {
                if s[0] == 92 || char_sym(s[0]) is Some {
                    let rest = s.skip(1);
                    lemma_tokenize_err_iff(rest);
                    if tokenize(s) is Err {
                        let i = choose|i: int| 0 <= i < rest.len() && !encodable(rest[i]);
                        assert(!encodable(s[i + 1]));
                    } else {
                        if exists|i: int| 0 <= i < s.len() && !encodable(s[i]) {
                            let i = choose|i: int| 0 <= i < s.len() && !encodable(#[trigger] s[i]);
                            assert(i >= 1);
                            assert(!encodable(rest[i - 1]));
                            assert(false);
                        }
                    }
                } else {
                    assert(!encodable(s[0]));
                }
            },
        }
    }
}

pub proof fn lemma_symbols_bits_push(syms: Seq<int>, x: int)
    ensures
        symbols_bits(syms.push(x)) == symbols_bits(syms) + sym_code(x),
    decreases syms.len(),
{
    if syms.len() == 0 {
        reveal_with_fuel(symbols_bits, 2);
        let single = syms.push(x);
        assert(single.len() == 1 && single[0] == x);
        assert(single.skip(1) =~= Seq::<int>::empty());
        assert(symbols_bits(single) == sym_code(x) + symbols_bits(single.skip(1)));
        assert(symbols_bits(single.skip(1)) == Seq::<bool>::empty());
        assert(symbols_bits(syms) == Seq::<bool>::empty());
        assert(sym_code(x) + Seq::<bool>::empty() =~= Seq::<bool>::empty() + sym_code(x));
    } else {
        assert(syms.push(x).skip(1) =~= syms.skip(1).push(x));
        lemma_symbols_bits_push(syms.skip(1), x);
        assert(syms.push(x)[0] == syms[0]);
        assert(symbols_bits(syms.push(x))
            == sym_code(syms[0]) + symbols_bits(syms.push(x).skip(1)));
        assert(symbols_bits(syms.push(x).skip(1)) == symbols_bits(syms.skip(1)) + sym_code(x));
        assert(symbols_bits(syms) == sym_code(syms[0]) + symbols_bits(syms.skip(1)));
        assert(sym_code(syms[0]) + (symbols_bits(syms.skip(1)) + sym_code(x))
            =~= (sym_code(syms[0]) + symbols_bits(syms.skip(1))) + sym_code(x));
    }
}

/// The symbol index of an encodable character, if any.
pub fn char_sym_x(c: u8) -> (r: Option<u8>)
    ensures
        match r {
            Some(i) => char_sym(c) == Some(i as int) && 1 <= i < 40,
            None => char_sym(c) is None,
        },
{
    if 97 <= c && c <= 122 {
        Some(1 + (c - 97))
    } else if c == 46 {
        Some(27)
    } else if c == 45 {
        Some(28)
    } else if 48 <= c && c <= 57 {
        Some(29 + (c - 48))
    } else if c == 95 {
        Some(39)
    } else {
        None
    }
}

/// The character of a single-character symbol index.
pub fn sym_char_x(s: u8) -> (r: u8)
    requires
        1 <= s < 40,
    ensures
        r == sym_char(s as int),
{
    if s <= 26 {
        s - 1 + 97
    } else if s == 27 {
        46
    } else if s == 28 {
        45
    } else if s <= 38 {
        s - 29 + 48
    } else {
        95
    }
}

/// The bytes of composite token `k`.
pub fn composite_vec(k: u8) -> (r: Vec<u8>)
    requires
        k < 7,
    ensures
        r@ == composite_bytes(k as int),
{
    let r: Vec<u8> = if k == 0 {
        vec![119, 119, 119, 46]
    } else if k == 1 {
        vec![46, 99, 111, 109]
    } else if k == 2 {
        vec![46, 110, 101, 116]
    } else if k == 3 {
        vec![46, 111, 114, 103]
    } else if k == 4 {
        vec![46, 101, 100, 117]
    } else if k == 5 {
        vec![46, 103, 111, 118]
    } else {
        vec![46, 105, 110, 102, 111]
    };
    proof {
        assert(r@ =~= composite_bytes(k as int));
    }
    r
}

/// Whether the bytes of `pat` stand at position `p` of `d`.
fn is_prefix_at(d: &Vec<u8>, p: usize, pat: &Vec<u8>) -> (r: bool)
    requires
        p <= d@.len(),
    ensures
        r == pat@.is_prefix_of(d@.skip(p as int)),
{
    let dl: usize = d.len();
    let pl: usize = pat.len();
    if pl > dl - p {
        proof {
            assert(d@.skip(p as int).len() == d@.len() - p);
        }
        return false;
    }
    let mut t: usize = 0;
    while t < pl
        invariant
            t <= pl,
            p + pl <= dl,
            dl == d@.len(),
            pl == pat@.len(),
            forall|u: int| 0 <= u < t ==> pat@[u] == d@[p + u],
        decreases pl - t,
    {
        if d[p + t] != pat[t] {
            proof {
                let sk = d@.skip(p as int);
                assert(!pat@.is_prefix_of(sk)) by {
                    if pat@.is_prefix_of(sk) {
                        assert(pat@[t as int] == sk.subrange(0, pat@.len() as int)[t as int]);
                        assert(sk.subrange(0, pat@.len() as int)[t as int] == d@[p + t]);
                    }
                }
            }
            return false;
        }
        t = t + 1;
    }
    proof {
        let sk = d@.skip(p as int);
        assert(pat@ =~= sk.subrange(0, pat@.len() as int));
    }
    true
}

/// The first composite token that stands at position `p` of `d`, in table
/// order.
fn comp_match_at(d: &Vec<u8>, p: usize) -> (r: Option<u8>)
    requires
        p <= d@.len(),
    ensures
        match r {
            Some(k) => k < 7 && comp_match(d@.skip(p as int)) == Some(k as int),
            None => comp_match(d@.skip(p as int)) is None,
        },
{
    let mut k: u8 = 0;
    while k < 7
        invariant
            k <= 7,
            p <= d@.len(),
            forall|u: int| 0 <= u < k ==> !composite_bytes(u).is_prefix_of(d@.skip(p as int)),
        decreases 7 - k,
    {
        let pat = composite_vec(k);
        if is_prefix_at(d, p, &pat) {
            return Some(k);
        }
        k = k + 1;
    }
    None
}

/// The byte length of composite token `k`.
pub fn composite_len(k: u8) -> (r: usize)
    requires
        k < 7,
    ensures
        r == composite_bytes(k as int).len(),
        4 <= r <= 5,
{
    if k == 6 {
        5
    } else {
        4
    }
}

/// A byte vector of symbol indices, as mathematical integers.
pub open spec fn syms_of(v: Seq<u8>) -> Seq<int> {
    Seq::new(v.len(), |i: int| v[i] as int)
}

pub proof fn lemma_syms_of_push(v: Seq<u8>, x: u8)
    ensures
        syms_of(v.push(x)) == syms_of(v).push(x as int),
{
    assert(syms_of(v.push(x)) =~= syms_of(v).push(x as int));
}

/// Greedy decomposition of a lowercased domain into symbol indices, or the
/// first character that the alphabet does not contain.
pub fn tokenize_domain(d: &Vec<u8>) -> (r: Result<Vec<u8>, u8>)
    ensures
        match r {
            Ok(v) => tokenize(d@) == Ok::<Seq<int>, u8>(syms_of(v@))
                && (forall|t: int| 0 <= t < v@.len() ==> 1 <= #[trigger] v@[t] < 47),
            Err(c) => tokenize(d@) == Err::<Seq<int>, u8>(c),
        },
{
    let mut out: Vec<u8> = Vec::new();
    let mut p: usize = 0;
    proof {
        assert(d@.skip(0) =~= d@);
        match tokenize(d@) {
            Ok(rest) => {
                assert(syms_of(out@) + rest =~= rest);
            },
            Err(_) => {},
        }
    }
    while p < d.len()
        invariant
            p <= d@.len(),
            forall|t: int| 0 <= t < out@.len() ==> 1 <= #[trigger] out@[t] < 47,
            match tokenize(d@.skip(p as int)) {
                Ok(rest) => tokenize(d@) == Ok::<Seq<int>, u8>(syms_of(out@) + rest),
                Err(c) => tokenize(d@) == Err::<Seq<int>, u8>(c),
            },
        decreases d@.len() - p,
    {
        let ghost sk = d@.skip(p as int);
        match comp_match_at(d, p) {
            Some(k) => {
                let cl = composite_len(k);
                proof {
                    assert(composite_bytes(k as int).is_prefix_of(sk));
                    assert(sk.len() >= cl);
                    assert(sk.skip(cl as int) =~= d@.skip(p as int + cl as int));
                    lemma_syms_of_push(out@, (40 + k) as u8);
                    match tokenize(d@.skip(p as int + cl as int)) {
                        Ok(rest) => {
                            assert(tokenize(sk) == Ok::<Seq<int>, u8>(seq![(40 + k) as int] + rest));
                            assert(syms_of(out@) + (seq![(40 + k) as int] + rest)
                                =~= syms_of(out@).push((40 + k) as int) + rest);
                        },
                        Err(_) => {},
                    }
                }
                out.push(40 + k);
                p = p + cl;
            },
            None => {
                let c = d[p];
                proof {
                    assert(sk[0] == c);
                    assert(sk.skip(1) =~= d@.skip(p as int + 1));
                }
                if c == 92 {
                    p = p + 1;
                } else {
                    match char_sym_x(c) {
                        Some(i) => {
                            proof {
                                lemma_syms_of_push(out@, i);
                                match tokenize(d@.skip(p as int + 1)) {
                                    Ok(rest) => {
                                        assert(tokenize(sk)
                                            == Ok::<Seq<int>, u8>(seq![i as int] + rest));
                                        assert(syms_of(out@) + (seq![i as int] + rest)
                                            =~= syms_of(out@).push(i as int) + rest);
                                    },
                                    Err(_) => {},
                                }
                            }
                            out.push(i);
                            p = p + 1;
                        },
                        None => {
                            proof {
                                assert(tokenize(sk) == Err::<Seq<int>, u8>(c));
                            }
                            return Err(c);
                        },
                    }
                }
            },
        }
    }
    proof {
        assert(d@.skip(p as int) =~= Seq::<u8>::empty());
        assert(tokenize(d@.skip(p as int)) == Ok::<Seq<int>, u8>(Seq::<int>::empty()));
        assert(syms_of(out@) + Seq::<int>::empty() =~= syms_of(out@));
    }
    Ok(out)
}

/// Appends the code words of a symbol run to a bit vector.
pub fn push_symbols(bits: &mut Vec<bool>, syms: &Vec<u8>)
    requires
        forall|t: int| 0 <= t < syms@.len() ==> 1 <= #[trigger] syms@[t] < 47,
    ensures
        final(bits)@ == old(bits)@ + symbols_bits(syms_of(syms@)),
{
    let ghost orig = bits@;
    let mut t: usize = 0;
    while t < syms.len()
        invariant
            t <= syms@.len(),
            forall|u: int| 0 <= u < syms@.len() ==> 1 <= #[trigger] syms@[u] < 47,
            bits@ == orig + symbols_bits(syms_of(syms@.subrange(0, t as int))),
        decreases syms@.len() - t,
    {
        let s = syms[t];
        let ghost pre = syms_of(syms@.subrange(0, t as int));
        proof {
            assert(syms_of(syms@.subrange(0, t as int + 1)) =~= pre.push(s as int));
            lemma_symbols_bits_push(pre, s as int);
        }
        if s < 31 {
            crate::bits::push_bits_be(bits, s as u32, 5);
            proof {
                assert(bits@ =~= orig + symbols_bits(pre.push(s as int)));
            }
        } else {
            crate::bits::push_bits_be(bits, 31, 5);
            crate::bits::push_bits_be(bits, (s - 31) as u32, 4);
            proof {
                assert(bits@ =~= orig + symbols_bits(pre.push(s as int)));
            }
        }
        t = t + 1;
    }
    proof {
        assert(syms@.subrange(0, syms@.len() as int) =~= syms@);
    }
}

/// Appends the bytes a symbol stands for.
fn push_sym_bytes(out: &mut Vec<u8>, s: u8)
    requires
        1 <= s < 47,
    ensures
        final(out)@ == old(out)@ + sym_bytes(s as int),
{
    if s < 40 {
        let c = sym_char_x(s);
        out.push(c);
        proof {
            assert(out@ =~= old(out)@ + sym_bytes(s as int));
        }
    } else {
        let pat = composite_vec(s - 40);
        let mut t: usize = 0;
        let ghost orig = out@;
        while t < pat.len()
            invariant
                t <= pat@.len(),
                pat@ == composite_bytes((s - 40) as int),
                out@ == orig + pat@.subrange(0, t as int),
            decreases pat@.len() - t,
        {
            let b = pat[t];
            proof {
                assert(orig + pat@.subrange(0, t as int + 1)
                    =~= (orig + pat@.subrange(0, t as int)).push(b));
            }
            out.push(b);
            t = t + 1;
        }
        proof {
            assert(pat@.subrange(0, pat@.len() as int) =~= pat@);
            assert(out@ =~= old(out)@ + sym_bytes(s as int));
        }
    }
}

/// Reads a Huffman-coded symbol run from `bits` starting at `start`, stopping
/// at the `End` code word or at the end of the stream, and expands it to its
/// bytes; also yields the position after the stop.
pub fn read_domain(bits: &Vec<bool>, start: usize) -> (r: (Vec<u8>, usize))
    requires
        start <= bits@.len(),
    ensures
        r.0@ == syms_bytes(decode_syms(bits@, start as int).0),
        r.1 as int == decode_syms(bits@, start as int).1,
        r.1 <= bits@.len(),
{
    let len: usize = bits.len();
    let mut out: Vec<u8> = Vec::new();
    let mut p: usize = start;
    let ghost whole = decode_syms(bits@, start as int);
    let ghost mut done: Seq<int> = Seq::empty();
    loop
        invariant_except_break
            start <= p <= len,
            len == bits@.len(),
            out@ == syms_bytes(done),
            whole == decode_syms(bits@, start as int),
            whole.0 == done + decode_syms(bits@, p as int).0,
            whole.1 == decode_syms(bits@, p as int).1,
        ensures
            out@ == syms_bytes(whole.0),
            p as int == whole.1,
            p <= len,
        decreases len - p,
    {
        if len - p < 5 {
            proof {
                assert(decode_syms(bits@, p as int) == (Seq::<int>::empty(), len as int));
                assert(whole.0 =~= done);
            }
            p = len;
            break;
        }
        let v: u32 = crate::bits::read_bits_be(bits, p, 5);
        proof {
            lemma_be_val_bound(bits@.subrange(p as int, p as int + 5));
            lemma2_to64();
        }
        if v == 0 {
            proof {
                assert(decode_syms(bits@, p as int) == (Seq::<int>::empty(), p as int + 5));
                assert(whole.0 =~= done);
            }
            p = p + 5;
            break;
        } else if v == 31 {
            if len - p < 9 {
                proof {
                    assert(decode_syms(bits@, p as int) == (Seq::<int>::empty(), len as int));
                    assert(whole.0 =~= done);
                }
                p = len;
                break;
            }
            let w: u32 = crate::bits::read_bits_be(bits, p + 5, 4);
            proof {
                lemma_be_val_bound(bits@.subrange(p as int + 5, p as int + 9));
                lemma2_to64();
                let rest = decode_syms(bits@, p as int + 9);
                assert(decode_syms(bits@, p as int).0 == seq![31 + w as int] + rest.0);
                assert(done + (seq![31 + w as int] + rest.0) =~= done.push(31 + w as int) + rest.0);
                lemma_syms_bytes_push(done, 31 + w as int);
                done = done.push(31 + w as int);
            }
            push_sym_bytes(&mut out, 31 + w as u8);
            p = p + 9;
        } else {
            proof {
                let rest = decode_syms(bits@, p as int + 5);
                assert(decode_syms(bits@, p as int).0 == seq![v as int] + rest.0);
                assert(done + (seq![v as int] + rest.0) =~= done.push(v as int) + rest.0);
                lemma_syms_bytes_push(done, v as int);
                done = done.push(v as int);
            }
            push_sym_bytes(&mut out, v as u8);
            p = p + 5;
        }
    }
    (out, p)
}

/// The alphabet symbol at index `i`.
pub open spec fn sym_domain_code(i: int) -> DomainCode {
    if i == 0 {
        DomainCode::End
    } else if i < 40 {
        DomainCode::Char(sym_char(i))
    } else {
        DomainCode::Composite((i - 40) as u8)
    }
}

/// The code word of symbol `i`, one byte (0 or 1) per bit.
pub open spec fn code_bits_u8(i: int) -> Seq<u8> {
    Seq::new(sym_code(i).len(), |t: int| if sym_code(i)[t] { 1u8 } else { 0u8 })
}

/// The whole code table: every symbol of the alphabet, in index order, paired
/// with its code word written as 0/1 bytes.
pub fn build_huffman_tree() -> (r: Vec<(DomainCode, Vec<u8>)>)
    ensures
        r@.len() == 47,
        forall|i: int| 0 <= i < 47 ==> (#[trigger] r@[i]).0 == sym_domain_code(i),
        forall|i: int| 0 <= i < 47 ==> (#[trigger] r@[i]).1@ == code_bits_u8(i),
{
    let mut out: Vec<(DomainCode, Vec<u8>)> = Vec::new();
    let mut i: usize = 0;
    while i < 47
        invariant
            i <= 47,
            out@.len() == i,
            forall|t: int| 0 <= t < i ==> (#[trigger] out@[t]).0 == sym_domain_code(t),
            forall|t: int| 0 <= t < i ==> (#[trigger] out@[t]).1@ == code_bits_u8(t),
        decreases 47 - i,
    {
        let code: DomainCode = if i == 0 {
            DomainCode::End
        } else if i < 40 {
            DomainCode::Char(sym_char_x(i as u8))
        } else {
            DomainCode::Composite((i - 40) as u8)
        };
        let mut cb: Vec<bool> = Vec::new();
        if i < 31 {
            crate::bits::push_bits_be(&mut cb, i as u32, 5);
            proof {
                assert(cb@ =~= sym_code(i as int));
            }
        } else {
            crate::bits::push_bits_be(&mut cb, 31, 5);
            crate::bits::push_bits_be(&mut cb, (i - 31) as u32, 4);
            proof {
                assert(cb@ =~= sym_code(i as int));
            }
        }
        let mut cu: Vec<u8> = Vec::new();
        let mut t: usize = 0;
        while t < cb.len()
            invariant
                t <= cb@.len(),
                cb@ == sym_code(i as int),
                cu@.len() == t,
                forall|u: int| 0 <= u < t ==> #[trigger] cu@[u]
                    == (if sym_code(i as int)[u] { 1u8 } else { 0u8 }),
            decreases cb@.len() - t,
        {
            let b = cb[t];
            cu.push(if b { 1 } else { 0 });
            t = t + 1;
        }
        proof {
            assert(cu@ =~= code_bits_u8(i as int));
        }
        out.push((code, cu));
        i = i + 1;
    }
    out
}

pub proof fn lemma_syms_bytes_push(syms: Seq<int>, x: int)
    ensures
        syms_bytes(syms.push(x)) == syms_bytes(syms) + sym_bytes(x),
    decreases syms.len(),
{
    if syms.len() == 0 {
        reveal_with_fuel(syms_bytes, 2);
        let single = syms.push(x);
        assert(single.len() == 1 && single[0] == x);
        assert(single.skip(1) =~= Seq::<int>::empty());
        assert(syms_bytes(single) == sym_bytes(x) + syms_bytes(single.skip(1)));
        assert(syms_bytes(single.skip(1)) == Seq::<u8>::empty());
        assert(syms_bytes(syms) == Seq::<u8>::empty());
        assert(sym_bytes(x) + Seq::<u8>::empty() =~= Seq::<u8>::empty() + sym_bytes(x));
    } else {
        assert(syms.push(x).skip(1) =~= syms.skip(1).push(x));
        lemma_syms_bytes_push(syms.skip(1), x);
        assert(syms.push(x)[0] == syms[0]);
        assert(syms_bytes(syms.push(x)) == sym_bytes(syms[0]) + syms_bytes(syms.push(x).skip(1)));
        assert(syms_bytes(syms.push(x).skip(1)) == syms_bytes(syms.skip(1)) + sym_bytes(x));
        assert(syms_bytes(syms) == sym_bytes(syms[0]) + syms_bytes(syms.skip(1)));
        assert(sym_bytes(syms[0]) + (syms_bytes(syms.skip(1)) + sym_bytes(x))
            =~= (sym_bytes(syms[0]) + syms_bytes(syms.skip(1))) + sym_bytes(x));
    }
}

} // verus!
