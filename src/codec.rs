//! The reversible map between bytes and printable symbols.
//!
//! Every byte stands for one Unicode code point below 0x800: the byte itself
//! where it is printable (`!`..=`~`, `¡`..=`¬`, `®`..=`ÿ`), and the next free
//! code point from 256 upwards for the 68 other bytes, in byte order. A symbol
//! is the UTF-8 encoding of that code point.
use vstd::prelude::*;
use vstd::utf8::*;

verus! {

/// Code point of the symbol that stands for byte `b`.
pub open spec fn symbol_point(b: u8) -> u32 {
    if b <= 32 {
        (b as u32 + 256) as u32
    } else if b <= 126 {
        b as u32
    } else if b == 127 {
        289
    } else if b <= 160 {
        (b as u32 + 162) as u32
    } else if b == 173 {
        323
    } else {
        b as u32
    }
}

/// The byte that code point `p` stands for, if `p` is a symbol's code point.
pub open spec fn point_byte(p: u32) -> Option<u8> {
    if 33 <= p <= 126 || 161 <= p <= 172 || 174 <= p <= 255 {
        Some(p as u8)
    } else if 256 <= p <= 288 {
        Some((p - 256) as u8)
    } else if p == 289 {
        Some(127u8)
    } else if 290 <= p <= 322 {
        Some((p - 162) as u8)
    } else if p == 323 {
        Some(173u8)
    } else {
        None
    }
}

/// The symbol of byte `b`: the UTF-8 bytes of its code point.
pub open spec fn symbol(b: u8) -> Seq<u8> {
    encode_scalar(symbol_point(b))
}

/// The byte whose symbol is exactly `s`, if there is one.
pub open spec fn symbol_byte(s: Seq<u8>) -> Option<u8> {
    if exists|b: u8| symbol(b) == s {
        Some(choose|b: u8| symbol(b) == s)
    } else {
        None
    }
}

/// The symbols of a byte string, one per byte.
pub open spec fn symbols(bytes: Seq<u8>) -> Seq<Seq<u8>> {
    bytes.map_values(|b: u8| symbol(b))
}

/// The bytes that a character sequence stands for: each symbol character
/// gives its byte; any other character gives its own UTF-8 bytes.
pub open spec fn unsymbol_chars(cs: Seq<char>) -> Seq<u8>
    decreases cs.len(),
{
    if cs.len() == 0 {
        Seq::empty()
    } else {
        char_bytes(cs[0]) + unsymbol_chars(cs.drop_first())
    }
}

/// What one character stands for, as in `unsymbol_chars`.
pub open spec fn char_bytes(c: char) -> Seq<u8> {
    match point_byte(c as u32) {
        Some(b) => seq![b],
        None => encode_scalar(c as u32),
    }
}

/// Error of `decode_symbol`: the bytes are not the symbol of any byte.
#[derive(Debug, Clone, PartialEq, Eq)]
pub enum CodecError {
    UnmappedSymbol(Vec<u8>),
}

proof fn lemma_point_round_trip(b: u8)
    ensures
        point_byte(symbol_point(b)) == Some(b),
        128 <= symbol_point(b) <= 0x7FF || 33 <= symbol_point(b) <= 126,
{
}

proof fn lemma_width_2_injective(p: u32, q: u32)
    requires
        0x80 <= p <= 0x7FF,
        0x80 <= q <= 0x7FF,
        0xC0u8 | (((p >> 6u32) & 0x1Fu32) as u8) == 0xC0u8 | (((q >> 6u32) & 0x1Fu32) as u8),
        0x80u8 | ((p & 0x3Fu32) as u8) == 0x80u8 | ((q & 0x3Fu32) as u8),
    ensures
        p == q,
{
    assert(p == q) by (bit_vector)
        requires
            0x80 <= p <= 0x7FF,
            0x80 <= q <= 0x7FF,
            0xC0u8 | (((p >> 6u32) & 0x1Fu32) as u8) == 0xC0u8 | (((q >> 6u32) & 0x1Fu32) as u8),
            0x80u8 | ((p & 0x3Fu32) as u8) == 0x80u8 | ((q & 0x3Fu32) as u8),
    ;
}

proof fn lemma_width_1_injective(p: u32, q: u32)
    requires
        p <= 0x7F,
        q <= 0x7F,
        (p & 0x7Fu32) as u8 == (q & 0x7Fu32) as u8,
    ensures
        p == q,
{
    assert(p == q) by (bit_vector)
        requires
            p <= 0x7F,
            q <= 0x7F,
            (p & 0x7Fu32) as u8 == (q & 0x7Fu32) as u8,
    ;
}

proof fn lemma_symbol_shape(b: u8)
    ensures
        symbol_point(b) <= 0x7F ==> symbol(b) == seq![(symbol_point(b) & 0x7Fu32) as u8],
        symbol_point(b) > 0x7F ==> symbol(b) == seq![
            0xC0u8 | (((symbol_point(b) >> 6u32) & 0x1Fu32) as u8),
            0x80u8 | ((symbol_point(b) & 0x3Fu32) as u8),
        ],
{
    lemma_point_round_trip(b);
}

proof fn lemma_symbol_injective(a: u8, c: u8)
    requires
        symbol(c) == symbol(a),
    ensures
        a == c,
{
    lemma_point_round_trip(a);
    lemma_point_round_trip(c);
    lemma_symbol_shape(a);
    lemma_symbol_shape(c);
    let p = symbol_point(a);
    let q = symbol_point(c);
    let sa = symbol(a);
    let sc = symbol(c);
    if p <= 0x7F && q <= 0x7F {
        let x = (p & 0x7Fu32) as u8;
        let y = (q & 0x7Fu32) as u8;
        assert(sa == seq![x]);
        assert(sc == seq![y]);
        assert(sa[0] == x);
        assert(sc[0] == y);
        lemma_width_1_injective(p, q);
    } else if p > 0x7F && q > 0x7F {
        assert(sa[0] == sc[0]);
        assert(sa[1] == sc[1]);
        lemma_width_2_injective(p, q);
    } else if p <= 0x7F {
        assert(sa.len() == 1);
        assert(sc.len() == 2);
    } else {
        assert(sa.len() == 2);
        assert(sc.len() == 1);
    }
    assert(point_byte(p) == point_byte(q));
}

/// Distinct bytes have distinct symbols, so the symbols of the 256 bytes
/// are pairwise different and each symbol gives its byte back.
pub proof fn lemma_symbols_distinct(a: u8, b: u8)
    ensures
        symbol(a) == symbol(b) ==> a == b,
        symbol_byte(symbol(a)) == Some(a),
{
    if symbol(a) == symbol(b) {
        lemma_symbol_injective(a, b);
    }
    assert(exists|c: u8| symbol(c) == symbol(a));
    let c = choose|c: u8| symbol(c) == symbol(a);
    lemma_symbol_injective(a, c);
}

/// Code point of the symbol of `b`.
pub fn symbol_code(b: u8) -> (r: u32)
    ensures
        r == symbol_point(b),
{
    if b <= 32 {
        (b as u32 + 256) as u32
    } else if b <= 126 {
        b as u32
    } else if b == 127 {
        289
    } else if b <= 160 {
        (b as u32 + 162) as u32
    } else if b == 173 {
        323
    } else {
        b as u32
    }
}

/// The byte that code point `p` stands for, if any.
pub fn byte_of_code(p: u32) -> (r: Option<u8>)
    ensures
        r == point_byte(p),
{
    if (33 <= p && p <= 126) || (161 <= p && p <= 172) || (174 <= p && p <= 255) {
        Some(p as u8)
    } else if 256 <= p && p <= 288 {
        Some((p - 256) as u8)
    } else if p == 289 {
        Some(127u8)
    } else if 290 <= p && p <= 322 {
        Some((p - 162) as u8)
    } else if p == 323 {
        Some(173u8)
    } else {
        None
    }
}

/// The symbol of byte `b`.
pub fn encode_byte(b: u8) -> (r: Vec<u8>)
    ensures
        r@ == symbol(b),
{
    let p = symbol_code(b);
    proof {
        lemma_point_round_trip(b);
    }
    if p <= 0x7F {
        let v = vec![(p & 0x7F) as u8];
        assert(v@ =~= symbol(b));
        v
    } else {
        let v = vec![0xC0u8 | (((p >> 6) & 0x1F) as u8), 0x80u8 | ((p & 0x3F) as u8)];
        assert(v@ =~= symbol(b));
        v
    }
}

/// The byte whose symbol is `s`; an error where `s` is no symbol.
pub fn decode_symbol(s: &[u8]) -> (r: Result<u8, CodecError>)
    ensures
        match r {
            Ok(b) => symbol_byte(s@) == Some(b),
            Err(CodecError::UnmappedSymbol(v)) => symbol_byte(s@).is_none() && v@ == s@,
        },
{
    let mut b: u8 = 0;
    loop
        invariant
            forall|c: u8| c < b ==> symbol(c) != s@,
        ensures
            forall|c: u8| symbol(c) != s@,
        decreases 256 - b,
    {
        let candidate = encode_byte(b);
        if slice_eq(candidate.as_slice(), s) {
            proof {
                lemma_symbols_distinct(b, b);
            }
            return Ok(b);
        }
        if b == 255 {
            break;
        }
        b = b + 1;
    }
    Err(CodecError::UnmappedSymbol(vstd::slice::slice_to_vec(s)))
}

/// Whether two byte slices hold the same bytes.
pub fn slice_eq(a: &[u8], b: &[u8]) -> (r: bool)
    ensures
        r == (a@ == b@),
{
    if a.len() != b.len() {
        return false;
    }
    let mut i: usize = 0;
    while i < a.len()
        invariant
            a@.len() == b@.len(),
            i <= a@.len(),
            forall|j: int| 0 <= j < i ==> a@[j] == b@[j],
        decreases a@.len() - i,
    {
        if a[i] != b[i] {
            return false;
        }
        i = i + 1;
    }
    assert(a@ =~= b@);
    true
}

/// A symbol is one or two bytes long.
pub proof fn lemma_symbol_len(b: u8)
    ensures
        1 <= symbol(b).len() <= 2,
{
    lemma_symbol_shape(b);
}

proof fn lemma_lead_byte(x: u32)
    ensures
        x <= 0x7F ==> ((x & 0x7Fu32) as u8) < 0x80u8,
        0x80 <= x <= 0x7FF ==> 0xC0u8 <= 0xC0u8 | (((x >> 6u32) & 0x1Fu32) as u8) <= 0xDFu8,
        0x800 <= x <= 0xFFFF ==> 0xE0u8 <= 0xE0u8 | (((x >> 12u32) & 0x0Fu32) as u8),
        0x10000 <= x <= 0x10FFFF ==> 0xF0u8 <= 0xF0u8 | (((x >> 18u32) & 0x7u32) as u8),
{
    assert(x <= 0x7F ==> ((x & 0x7Fu32) as u8) < 0x80u8) by (bit_vector);
    assert(0x80 <= x <= 0x7FF ==> 0xC0u8 <= 0xC0u8 | (((x >> 6u32) & 0x1Fu32) as u8) <= 0xDFu8)
        by (bit_vector);
    assert(0x800 <= x <= 0xFFFF ==> 0xE0u8 <= 0xE0u8 | (((x >> 12u32) & 0x0Fu32) as u8))
        by (bit_vector);
    assert(0x10000 <= x <= 0x10FFFF ==> 0xF0u8 <= 0xF0u8 | (((x >> 18u32) & 0x7u32) as u8))
        by (bit_vector);
}

/// No symbol character is white space.
pub open spec fn point_is_symbol_char(p: u32) -> bool {
    (33 <= p <= 126 || 161 <= p <= 172 || 174 <= p <= 323)
}

/// Characters whose UTF-8 bytes are the symbols of `bytes` stand for
/// exactly `bytes`, one character per byte, and all are symbol characters.
pub proof fn lemma_unsymbol_symbols(k: Seq<char>, bytes: Seq<u8>)
    requires
        encode_utf8(k) == symbols(bytes).flatten(),
    ensures
        unsymbol_chars(k) == bytes,
        k.len() == bytes.len(),
        forall|i: int| 0 <= i < k.len() ==> point_is_symbol_char(#[trigger] k[i] as u32),
    decreases bytes.len(),
{
    if bytes.len() == 0 {
        assert(symbols(bytes) =~= Seq::<Seq<u8>>::empty());
        if k.len() > 0 {
            assert(encode_utf8(k).len() >= encode_scalar(k[0] as u32).len());
            assert(encode_scalar(k[0] as u32).len() > 0);
        }
        assert(unsymbol_chars(k) =~= bytes);
    } else {
        let b0 = bytes[0];
        let rest = bytes.drop_first();
        let sb = symbol(b0);
        assert(symbols(bytes).drop_first() =~= symbols(rest));
        assert(symbols(bytes)[0] == sb);
        let u = symbols(bytes).flatten();
        assert(u == sb + symbols(rest).flatten());
        lemma_point_round_trip(b0);
        lemma_symbol_shape(b0);
        let p = symbol_point(b0);
        if k.len() == 0 {
            assert(sb.len() > 0);
            assert(false);
        }
        let c = k[0];
        let x = c as u32;
        let e = encode_scalar(x);
        vstd::utf8::char_is_scalar(c);
        assert(encode_utf8(k) == e + encode_utf8(k.drop_first()));
        lemma_lead_byte(x);
        lemma_lead_byte(p);
        assert(e.len() > 0);
        assert(e[0] == u[0]);
        assert(sb[0] == u[0]);
        assert(e.len() == sb.len());
        assert(e =~= u.subrange(0, e.len() as int));
        assert(sb =~= u.subrange(0, sb.len() as int));
        assert(encode_utf8(k.drop_first()) =~= u.subrange(e.len() as int, u.len() as int));
        assert(symbols(rest).flatten() =~= u.subrange(sb.len() as int, u.len() as int));
        if p <= 0x7F {
            lemma_width_1_injective(x, p);
        } else {
            assert(e[1] == sb[1]);
            lemma_width_2_injective(x, p);
        }
        assert(point_byte(x) == Some(b0));
        assert(char_bytes(c) == seq![b0]);
        lemma_unsymbol_symbols(k.drop_first(), rest);
        assert(unsymbol_chars(k) =~= seq![b0] + rest);
        assert(bytes =~= seq![b0] + rest);
        assert forall|i: int| 0 <= i < k.len() implies point_is_symbol_char(#[trigger] k[i] as u32) by {
            if i > 0 {
                assert(k[i] == k.drop_first()[i - 1]);
            }
        }
    }
}

} // verus!
