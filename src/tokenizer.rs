//! Encoding byte strings into token ids and decoding them back.
use vstd::prelude::*;
use vstd::utf8::*;
use crate::codec::{
    byte_of_code, char_bytes, lemma_unsymbol_symbols, point_is_symbol_char, symbols,
    unsymbol_chars,
};
use crate::merge::{bpe, lemma_bpe_monotone, lemma_merge_at, merge, merge_at, best_pair};
use crate::text::{clusters_of, grapheme, lossy_text, text_units};
use crate::vocab::{
    Vocabulary, backward, chars_of, first_id, first_key, forward, is_atomic, is_space,
};
use crate::words::{lemma_words_cover, tokens, words_of};

verus! {

/// Why a byte string could not be encoded.
#[derive(Debug, Clone, PartialEq, Eq)]
pub enum EncodingError {
    /// A unit that no merge could grow into a vocabulary key; its bytes.
    UnmappableUnit(Vec<u8>),
    /// The word pattern does not compile.
    InvalidPattern,
}

/// Why a token sequence could not be decoded.
#[derive(Debug, Clone, Copy, PartialEq, Eq)]
pub enum DecodingError {
    /// No one-word entry has this id.
    UnknownTokenId(u32),
}

/// The ids of `units`, or `None` where one of them is no key.
pub open spec fn unit_ids(v: Seq<(Seq<char>, u32)>, units: Seq<Seq<u8>>) -> Option<Seq<u32>>
    decreases units.len(),
{
    if units.len() == 0 {
        Some(Seq::empty())
    } else {
        match forward(v, units[0]) {
            None => None,
            Some(id) => match unit_ids(v, units.drop_first()) {
                Some(rest) => Some(seq![id] + rest),
                None => None,
            },
        }
    }
}

/// The first of `units` that is no key.
pub open spec fn first_unmapped(v: Seq<(Seq<char>, u32)>, units: Seq<Seq<u8>>) -> Seq<u8>
    decreases units.len(),
{
    if units.len() == 0 {
        Seq::empty()
    } else if forward(v, units[0]) is None {
        units[0]
    } else {
        first_unmapped(v, units.drop_first())
    }
}

/// The units that word `w` merges into.
pub open spec fn word_units(v: Seq<(Seq<char>, u32)>, w: Seq<u8>) -> Seq<Seq<u8>> {
    bpe(v, text_units(w))
}

/// The ids of the words, concatenated; or the first unit of the first word
/// that fails.
pub open spec fn words_ids(v: Seq<(Seq<char>, u32)>, ws: Seq<Seq<u8>>) -> Result<Seq<u32>, Seq<u8>>
    decreases ws.len(),
{
    if ws.len() == 0 {
        Ok(Seq::empty())
    } else {
        match unit_ids(v, word_units(v, ws[0])) {
            None => Err(first_unmapped(v, word_units(v, ws[0]))),
            Some(ids) => match words_ids(v, ws.drop_first()) {
                Ok(rest) => Ok(ids + rest),
                Err(e) => Err(e),
            },
        }
    }
}

/// The ids that `s` encodes to, or the unit that stops it.
pub open spec fn encoding(v: Seq<(Seq<char>, u32)>, s: Seq<u8>) -> Option<Result<Seq<u32>, Seq<u8>>> {
    match words_of(s) {
        Some(ws) => Some(words_ids(v, ws)),
        None => None,
    }
}

/// The bytes that `ids` decode to, or the first unknown id.
pub open spec fn decoding(v: Seq<(Seq<char>, u32)>, ids: Seq<u32>) -> Result<Seq<u8>, u32>
    decreases ids.len(),
{
    if ids.len() == 0 {
        Ok(Seq::empty())
    } else {
        match backward(v, ids[0]) {
            None => Err(ids[0]),
            Some(k) => match decoding(v, ids.drop_first()) {
                Ok(rest) => Ok(unsymbol_chars(k) + rest),
                Err(e) => Err(e),
            },
        }
    }
}

/// The ids of already merged units.
pub fn units_to_ids(units: &Vec<Vec<u8>>, vocab: &Vocabulary) -> (r: Result<Vec<u32>, EncodingError>)
    ensures
        match r {
            Ok(ids) => unit_ids(vocab@, units.deep_view()) == Some(ids@),
            Err(EncodingError::UnmappableUnit(b)) => unit_ids(vocab@, units.deep_view()).is_none()
                && b@ == first_unmapped(vocab@, units.deep_view()),
            Err(EncodingError::InvalidPattern) => false,
        },
{
    let ghost us = units.deep_view();
    let mut out: Vec<u32> = Vec::new();
    let mut i: usize = 0;
    proof {
        assert(us.subrange(0, us.len() as int) =~= us);
        match unit_ids(vocab@, us) {
            Some(t) => {
                assert(out@ + t =~= t);
            },
            None => {},
        }
    }
    while i < units.len()
        invariant
            i <= us.len(),
            us == units.deep_view(),
            unit_ids(vocab@, us) == match unit_ids(vocab@, us.subrange(i as int, us.len() as int)) {
                Some(rest) => Some(out@ + rest),
                None => None,
            },
            first_unmapped(vocab@, us) == first_unmapped(vocab@, us.subrange(i as int, us.len() as int)),
        decreases us.len() - i,
    {
        let ghost rest = us.subrange(i as int, us.len() as int);
        assert(rest.drop_first() =~= us.subrange(i + 1, us.len() as int));
        assert(rest[0] == units@[i as int]@);
        match vocab.lookup_forward(units[i].as_slice()) {
            None => {
                let b = vstd::slice::slice_to_vec(units[i].as_slice());
                return Err(EncodingError::UnmappableUnit(b));
            },
            Some(id) => {
                proof {
                    match unit_ids(vocab@, rest.drop_first()) {
                        Some(t) => {
                            assert(out@.push(id) + t =~= out@ + (seq![id] + t));
                        },
                        None => {},
                    }
                }
                out.push(id);
            },
        }
        i = i + 1;
    }
    proof {
        assert(us.subrange(i as int, us.len() as int) =~= Seq::<Seq<u8>>::empty());
        assert(out@ + Seq::<u32>::empty() =~= out@);
    }
    Ok(out)
}

/// The ids of one word.
pub fn encode_word(word: &[u8], vocab: &Vocabulary) -> (r: Result<Vec<u32>, EncodingError>)
    ensures
        match r {
            Ok(ids) => unit_ids(vocab@, word_units(vocab@, word@)) == Some(ids@),
            Err(EncodingError::UnmappableUnit(b)) => unit_ids(vocab@, word_units(vocab@, word@)).is_none()
                && b@ == first_unmapped(vocab@, word_units(vocab@, word@)),
            Err(EncodingError::InvalidPattern) => false,
        },
{
    let units = grapheme(word);
    let merged = merge(units, vocab);
    units_to_ids(&merged, vocab)
}

/// The token ids of `slice`: its words, merged and looked up one by one.
pub fn encode(slice: &[u8], vocab: &Vocabulary) -> (r: Result<Vec<u32>, EncodingError>)
    ensures
        match r {
            Ok(ids) => encoding(vocab@, slice@) == Some(Ok::<Seq<u32>, Seq<u8>>(ids@)),
            Err(EncodingError::UnmappableUnit(b)) => encoding(vocab@, slice@) == Some(
                Err::<Seq<u32>, Seq<u8>>(b@),
            ),
            Err(EncodingError::InvalidPattern) => encoding(vocab@, slice@).is_none(),
        },
{
    let words = match tokens(slice) {
        Ok(w) => w,
        Err(_) => {
            return Err(EncodingError::InvalidPattern);
        },
    };
    let ghost ws = words.deep_view();
    let mut out: Vec<u32> = Vec::new();
    let mut i: usize = 0;
    proof {
        assert(ws.subrange(0, ws.len() as int) =~= ws);
        match words_ids(vocab@, ws) {
            Ok(t) => {
                assert(out@ + t =~= t);
            },
            Err(_) => {},
        }
    }
    while i < words.len()
        invariant
            i <= ws.len(),
            ws == words.deep_view(),
            words_of(slice@) == Some(ws),
            words_ids(vocab@, ws) == match words_ids(vocab@, ws.subrange(i as int, ws.len() as int)) {
                Ok(rest) => Ok(out@ + rest),
                Err(e) => Err(e),
            },
        decreases ws.len() - i,
    {
        let ghost rest = ws.subrange(i as int, ws.len() as int);
        assert(rest.drop_first() =~= ws.subrange(i + 1, ws.len() as int));
        assert(rest[0] == words@[i as int]@);
        let ids = encode_word(words[i].as_slice(), vocab);
        match ids {
            Err(e) => {
                return Err(e);
            },
            Ok(ids) => {
                let ghost prev = out@;
                let mut j: usize = 0;
                while j < ids.len()
                    invariant
                        j <= ids@.len(),
                        out@ == prev + ids@.subrange(0, j as int),
                    decreases ids@.len() - j,
                {
                    out.push(ids[j]);
                    j = j + 1;
                    assert(out@ =~= prev + ids@.subrange(0, j as int));
                }
                proof {
                    assert(ids@.subrange(0, j as int) =~= ids@);
                    match words_ids(vocab@, rest.drop_first()) {
                        Ok(t) => {
                            assert(prev + ids@ + t =~= prev + (ids@ + t));
                        },
                        Err(_) => {},
                    }
                }
            },
        }
        i = i + 1;
    }
    proof {
        assert(ws.subrange(i as int, ws.len() as int) =~= Seq::<Seq<u8>>::empty());
        assert(out@ + Seq::<u32>::empty() =~= out@);
    }
    Ok(out)
}

/// The UTF-8 bytes of `c`.
pub fn char_utf8(c: char) -> (r: Vec<u8>)
    ensures
        r@ == encode_scalar(c as u32),
{
    let s = c as u32;
    proof {
        char_is_scalar(c);
    }
    if s <= 0x7F {
        let r = vec![(s & 0x7F) as u8];
        assert(r@ =~= encode_scalar(s));
        r
    } else if s <= 0x7FF {
        let r = vec![0xC0u8 | ((s >> 6) & 0x1F) as u8, 0x80u8 | (s & 0x3F) as u8];
        assert(r@ =~= encode_scalar(s));
        r
    } else if s <= 0xFFFF {
        let r = vec![
            0xE0u8 | ((s >> 12) & 0x0F) as u8,
            0x80u8 | ((s >> 6) & 0x3F) as u8,
            0x80u8 | (s & 0x3F) as u8,
        ];
        assert(r@ =~= encode_scalar(s));
        r
    } else {
        let r = vec![
            0xF0u8 | ((s >> 18) & 0x7) as u8,
            0x80u8 | ((s >> 12) & 0x3F) as u8,
            0x80u8 | ((s >> 6) & 0x3F) as u8,
            0x80u8 | (s & 0x3F) as u8,
        ];
        assert(r@ =~= encode_scalar(s));
        r
    }
}

/// `unsymbol_chars` distributes over concatenation.
pub proof fn lemma_unsymbol_concat(a: Seq<char>, b: Seq<char>)
    ensures
        unsymbol_chars(a + b) == unsymbol_chars(a) + unsymbol_chars(b),
    decreases a.len(),
{
    if a.len() == 0 {
        assert(a + b =~= b);
        assert(unsymbol_chars(a) + unsymbol_chars(b) =~= unsymbol_chars(b));
    } else {
        assert((a + b).drop_first() =~= a.drop_first() + b);
        lemma_unsymbol_concat(a.drop_first(), b);
        assert(unsymbol_chars(a + b) =~= char_bytes(a[0]) + unsymbol_chars(a.drop_first() + b));
        assert(unsymbol_chars(a + b) =~= unsymbol_chars(a) + unsymbol_chars(b));
    }
}

/// Appends the bytes that the characters `cs` stand for.
fn push_unsymbol(out: &mut Vec<u8>, cs: &Vec<char>)
    ensures
        final(out)@ == old(out)@ + unsymbol_chars(cs@),
{
    let ghost start = out@;
    let mut i: usize = 0;
    while i < cs.len()
        invariant
            i <= cs@.len(),
            out@ == start + unsymbol_chars(cs@.subrange(0, i as int)),
        decreases cs@.len() - i,
    {
        let c = cs[i];
        let code = c as u32;
        let bytes = match byte_of_code(code) {
            Some(b) => vec![b],
            None => char_utf8(c),
        };
        assert(bytes@ =~= char_bytes(c));
        let mut j: usize = 0;
        let ghost mid = out@;
        while j < bytes.len()
            invariant
                j <= bytes@.len(),
                out@ == mid + bytes@.subrange(0, j as int),
            decreases bytes@.len() - j,
        {
            out.push(bytes[j]);
            j = j + 1;
            assert(out@ =~= mid + bytes@.subrange(0, j as int));
        }
        proof {
            assert(bytes@.subrange(0, j as int) =~= bytes@);
            assert(cs@.subrange(0, i + 1) =~= cs@.subrange(0, i as int) + seq![c]);
            lemma_unsymbol_concat(cs@.subrange(0, i as int), seq![c]);
            assert(seq![c].drop_first() =~= Seq::<char>::empty());
            assert(seq![c][0] == c);
            assert(unsymbol_chars(Seq::<char>::empty()) == Seq::<u8>::empty());
            assert(unsymbol_chars(seq![c]) =~= char_bytes(c) + unsymbol_chars(Seq::<char>::empty()));
            assert(unsymbol_chars(seq![c]) =~= char_bytes(c));
        }
        i = i + 1;
    }
    assert(cs@.subrange(0, i as int) =~= cs@);
}

/// The bytes that the key `k` stands for, cluster by cluster.
pub fn decode_key(k: &str) -> (r: Vec<u8>)
    ensures
        r@ == unsymbol_chars(k@),
{
    let clusters = clusters_of(k);
    let ghost cs = clusters@.map_values(|g: String| g@);
    let mut out: Vec<u8> = Vec::new();
    let mut i: usize = 0;
    while i < clusters.len()
        invariant
            i <= cs.len(),
            cs == clusters@.map_values(|g: String| g@),
            cs.flatten() == k@,
            out@ == unsymbol_chars(cs.subrange(0, i as int).flatten()),
        decreases cs.len() - i,
    {
        proof {
            assert(cs.subrange(0, i + 1) =~= cs.subrange(0, i as int).push(cs[i as int]));
            cs.subrange(0, i as int).lemma_flatten_push(cs[i as int]);
            lemma_unsymbol_concat(cs.subrange(0, i as int).flatten(), cs[i as int]);
            assert(clusters@[i as int]@ == cs[i as int]);
        }
        let chars = chars_of(clusters[i].as_str());
        push_unsymbol(&mut out, &chars);
        i = i + 1;
    }
    assert(cs.subrange(0, i as int) =~= cs);
    out
}

/// The bytes that `ids` stand for; fails on the first id that no one-word
/// entry has, and then gives nothing else.
pub fn decode(ids: &[u32], vocab: &Vocabulary) -> (r: Result<Vec<u8>, DecodingError>)
    ensures
        match r {
            Ok(bytes) => decoding(vocab@, ids@) == Ok::<Seq<u8>, u32>(bytes@),
            Err(DecodingError::UnknownTokenId(id)) => decoding(vocab@, ids@) == Err::<Seq<u8>, u32>(id),
        },
{
    let mut out: Vec<u8> = Vec::new();
    let mut i: usize = 0;
    proof {
        assert(ids@.subrange(0, ids@.len() as int) =~= ids@);
        match decoding(vocab@, ids@) {
            Ok(t) => {
                assert(out@ + t =~= t);
            },
            Err(_) => {},
        }
    }
    while i < ids.len()
        invariant
            i <= ids@.len(),
            decoding(vocab@, ids@) == match decoding(vocab@, ids@.subrange(i as int, ids@.len() as int)) {
                Ok(rest) => Ok(out@ + rest),
                Err(e) => Err(e),
            },
        decreases ids@.len() - i,
    {
        let ghost rest = ids@.subrange(i as int, ids@.len() as int);
        assert(rest.drop_first() =~= ids@.subrange(i + 1, ids@.len() as int));
        match vocab.lookup_reverse(ids[i]) {
            None => {
                return Err(DecodingError::UnknownTokenId(ids[i]));
            },
            Some(key) => {
                let bytes = decode_key(key.as_str());
                let ghost prev = out@;
                let mut j: usize = 0;
                while j < bytes.len()
                    invariant
                        j <= bytes@.len(),
                        out@ == prev + bytes@.subrange(0, j as int),
                    decreases bytes@.len() - j,
                {
                    out.push(bytes[j]);
                    j = j + 1;
                    assert(out@ =~= prev + bytes@.subrange(0, j as int));
                }
                proof {
                    assert(bytes@.subrange(0, j as int) =~= bytes@);
                    match decoding(vocab@, rest.drop_first()) {
                        Ok(t) => {
                            assert(prev + bytes@ + t =~= prev + (bytes@ + t));
                        },
                        Err(_) => {},
                    }
                }
            },
        }
        i = i + 1;
    }
    proof {
        assert(ids@.subrange(i as int, ids@.len() as int) =~= Seq::<u32>::empty());
        assert(out@ + Seq::<u8>::empty() =~= out@);
    }
    Ok(out)
}

/// The key bytes of each id, as the vocabulary spells them; fails on the
/// first id that no one-word entry has.
pub fn decode_keys(ids: &[u32], vocab: &Vocabulary) -> (r: Result<Vec<Vec<u8>>, DecodingError>)
    ensures
        match r {
            Ok(keys) => keys@.len() == ids@.len() && forall|i: int|
                0 <= i < ids@.len() ==> backward(vocab@, #[trigger] ids@[i]) is Some
                    && keys@[i]@ == encode_utf8(backward(vocab@, ids@[i])->0),
            Err(DecodingError::UnknownTokenId(id)) => exists|i: int|
                0 <= i < ids@.len() && #[trigger] ids@[i] == id && backward(vocab@, id).is_none()
                    && forall|j: int| 0 <= j < i ==> backward(vocab@, #[trigger] ids@[j]).is_some(),
        },
{
    let mut out: Vec<Vec<u8>> = Vec::new();
    let mut i: usize = 0;
    while i < ids.len()
        invariant
            i <= ids@.len(),
            out@.len() == i,
            forall|k: int|
                0 <= k < i ==> backward(vocab@, #[trigger] ids@[k]) is Some && out@[k]@
                    == encode_utf8(backward(vocab@, ids@[k])->0),
        decreases ids@.len() - i,
    {
        match vocab.lookup_reverse(ids[i]) {
            None => {
                proof {
                    assert forall|j: int| 0 <= j < i implies backward(vocab@, #[trigger] ids@[j]).is_some() by {
                        assert(backward(vocab@, ids@[j]) is Some);
                    }
                }
                return Err(DecodingError::UnknownTokenId(ids[i]));
            },
            Some(key) => {
                let bytes = vstd::slice::slice_to_vec(key.as_str().as_bytes());
                out.push(bytes);
            },
        }
        i = i + 1;
    }
    Ok(out)
}

/// No two entries share an id.
pub open spec fn unique_ids(v: Seq<(Seq<char>, u32)>) -> bool {
    forall|i: int, j: int| 0 <= i < v.len() && 0 <= j < v.len() && i != j ==> v[i].1 != v[j].1
}

/// The key whose bytes are `u`.
pub open spec fn key_of(v: Seq<(Seq<char>, u32)>, u: Seq<u8>) -> Seq<char> {
    v[choose|i: int| first_key(v, u, i)].0
}

/// The keys of `units`, joined.
pub open spec fn keys_of(v: Seq<(Seq<char>, u32)>, units: Seq<Seq<u8>>) -> Seq<char>
    decreases units.len(),
{
    if units.len() == 0 {
        Seq::empty()
    } else {
        key_of(v, units[0]) + keys_of(v, units.drop_first())
    }
}

proof fn lemma_keys_spell(v: Seq<(Seq<char>, u32)>, units: Seq<Seq<u8>>)
    requires
        unit_ids(v, units) is Some,
    ensures
        encode_utf8(keys_of(v, units)) == units.flatten(),
    decreases units.len(),
{
    if units.len() > 0 {
        lemma_keys_spell(v, units.drop_first());
        let i = choose|i: int| first_key(v, units[0], i);
        crate::text::lemma_encode_utf8_concat(key_of(v, units[0]), keys_of(v, units.drop_first()));
    } else {
        assert(encode_utf8(Seq::<char>::empty()) =~= Seq::<u8>::empty());
    }
}

proof fn lemma_keys_decode(v: Seq<(Seq<char>, u32)>, units: Seq<Seq<u8>>)
    requires
        unique_ids(v),
        unit_ids(v, units) is Some,
        forall|k: int| 0 <= k < units.len() ==> (#[trigger] units[k]).len() > 0,
        forall|i: int|
            0 <= i < keys_of(v, units).len() ==> point_is_symbol_char(
                #[trigger] keys_of(v, units)[i] as u32,
            ),
    ensures
        decoding(v, unit_ids(v, units)->0) == Ok::<Seq<u8>, u32>(unsymbol_chars(keys_of(v, units))),
    decreases units.len(),
{
    let ids = unit_ids(v, units)->0;
    if units.len() == 0 {
        assert(ids =~= Seq::<u32>::empty());
    } else {
        let u = units[0];
        let rest = units.drop_first();
        let i = choose|i: int| first_key(v, u, i);
        let k = v[i].0;
        let id = v[i].1;
        let ks = keys_of(v, units);
        assert(ks == k + keys_of(v, rest));
        assert forall|m: int| 0 <= m < keys_of(v, rest).len() implies point_is_symbol_char(
            #[trigger] keys_of(v, rest)[m] as u32,
        ) by {
            assert(keys_of(v, rest)[m] == ks[k.len() + m]);
        }
        assert forall|m: int| 0 <= m < rest.len() implies (#[trigger] rest[m]).len() > 0 by {
            assert(rest[m] == units[m + 1]);
        }
        lemma_keys_decode(v, rest);
        // the key of `u` is one word, and the only entry with its id
        assert forall|m: int| 0 <= m < k.len() implies !is_space(#[trigger] k[m]) by {
            assert(k[m] == ks[m]);
        }
        if k.len() == 0 {
            assert(encode_utf8(k) =~= Seq::<u8>::empty());
        }
        assert(!is_space(k[0]));
        assert(is_atomic(k));
        assert(forall|j: int| 0 <= j < i ==> !(#[trigger] v[j].1 == id && is_atomic(v[j].0)));
        assert(first_id(v, id, i));
        let c = choose|c: int| first_id(v, id, c);
        assert(c == i);
        assert(backward(v, id) == Some(k));
        assert(ids[0] == id);
        assert(ids.drop_first() =~= unit_ids(v, rest)->0);
        lemma_unsymbol_concat(k, keys_of(v, rest));
    }
}

proof fn lemma_decoding_concat(v: Seq<(Seq<char>, u32)>, a: Seq<u32>, b: Seq<u32>)
    requires
        decoding(v, a) is Ok,
        decoding(v, b) is Ok,
    ensures
        decoding(v, a + b) == Ok::<Seq<u8>, u32>(decoding(v, a)->Ok_0 + decoding(v, b)->Ok_0),
    decreases a.len(),
{
    if a.len() == 0 {
        assert(a + b =~= b);
        assert(decoding(v, a)->Ok_0 + decoding(v, b)->Ok_0 =~= decoding(v, b)->Ok_0);
    } else {
        assert((a + b).drop_first() =~= a.drop_first() + b);
        assert((a + b)[0] == a[0]);
        lemma_decoding_concat(v, a.drop_first(), b);
        let k = backward(v, a[0])->0;
        assert(unsymbol_chars(k) + (decoding(v, a.drop_first())->Ok_0 + decoding(v, b)->Ok_0)
            =~= unsymbol_chars(k) + decoding(v, a.drop_first())->Ok_0 + decoding(v, b)->Ok_0);
    }
}

proof fn lemma_bpe_nonempty(v: Seq<(Seq<char>, u32)>, units: Seq<Seq<u8>>)
    requires
        forall|k: int| 0 <= k < units.len() ==> (#[trigger] units[k]).len() > 0,
    ensures
        forall|k: int| 0 <= k < bpe(v, units).len() ==> (#[trigger] bpe(v, units)[k]).len() > 0,
    decreases units.len(),
{
    if units.len() > 1 {
        match best_pair(v, units) {
            Some(i) => {
                if 0 <= i < units.len() - 1 {
                    let m = merge_at(units, i);
                    lemma_merge_at(units, i);
                    assert forall|k: int| 0 <= k < m.len() implies (#[trigger] m[k]).len() > 0 by {
                        if k < i {
                            assert(m[k] == units[k]);
                        } else if k == i {
                            assert(m[k] == units[i] + units[i + 1]);
                        } else {
                            assert(m[k] == units[k + 1]);
                        }
                    }
                    lemma_bpe_nonempty(v, m);
                    assert(bpe(v, units) == bpe(v, m));
                } else {
                    assert(bpe(v, units) == units);
                }
            },
            None => {
                assert(bpe(v, units) == units);
            },
        }
    } else {
        assert(bpe(v, units) == units);
    }
}

/// A word whose lossy reading is itself decodes back to itself.
pub proof fn lemma_word_round_trip(v: Seq<(Seq<char>, u32)>, w: Seq<u8>)
    requires
        unique_ids(v),
        encode_utf8(lossy_text(w)) == w,
        unit_ids(v, word_units(v, w)) is Some,
    ensures
        decoding(v, unit_ids(v, word_units(v, w))->0) == Ok::<Seq<u8>, u32>(w),
{
    let start = text_units(w);
    assert(start == symbols(w));
    let units = word_units(v, w);
    lemma_bpe_monotone(v, start);
    assert forall|k: int| 0 <= k < start.len() implies (#[trigger] start[k]).len() > 0 by {
        crate::codec::lemma_symbol_len(w[k]);
    }
    lemma_bpe_nonempty(v, start);
    lemma_keys_spell(v, units);
    lemma_unsymbol_symbols(keys_of(v, units), w);
    lemma_keys_decode(v, units);
}

proof fn lemma_words_round_trip(v: Seq<(Seq<char>, u32)>, ws: Seq<Seq<u8>>)
    requires
        unique_ids(v),
        words_ids(v, ws) is Ok,
        forall|k: int| 0 <= k < ws.len() ==> encode_utf8(lossy_text(#[trigger] ws[k])) == ws[k],
    ensures
        decoding(v, words_ids(v, ws)->Ok_0) == Ok::<Seq<u8>, u32>(ws.flatten()),
    decreases ws.len(),
{
    if ws.len() == 0 {
        assert(words_ids(v, ws)->Ok_0 =~= Seq::<u32>::empty());
    } else {
        let rest = ws.drop_first();
        assert forall|k: int| 0 <= k < rest.len() implies encode_utf8(lossy_text(#[trigger] rest[k]))
            == rest[k] by {
            assert(rest[k] == ws[k + 1]);
        }
        lemma_words_round_trip(v, rest);
        assert(encode_utf8(lossy_text(ws[0])) == ws[0]);
        lemma_word_round_trip(v, ws[0]);
        lemma_decoding_concat(v, unit_ids(v, word_units(v, ws[0]))->0, words_ids(v, rest)->Ok_0);
    }
}

/// Round trip: under a vocabulary whose ids are distinct, an input that
/// encodes, and whose words each read back as their own bytes (true of
/// valid UTF-8), decodes to itself.
pub proof fn lemma_round_trip(v: Seq<(Seq<char>, u32)>, s: Seq<u8>)
    requires
        unique_ids(v),
        encoding(v, s) matches Some(Ok(_)),
        forall|k: int|
            0 <= k < words_of(s)->0.len() ==> encode_utf8(lossy_text(#[trigger] words_of(s)->0[k]))
                == words_of(s)->0[k],
    ensures
        decoding(v, encoding(v, s)->0->Ok_0) == Ok::<Seq<u8>, u32>(s),
{
    let ws = words_of(s)->0;
    lemma_words_cover(s);
    lemma_words_round_trip(v, ws);
}

/// Encoding is a function of the vocabulary and the input: two runs on
/// the same input agree.
pub proof fn lemma_encoding_deterministic(
    v: Seq<(Seq<char>, u32)>,
    s: Seq<u8>,
    first: Option<Result<Seq<u32>, Seq<u8>>>,
    second: Option<Result<Seq<u32>, Seq<u8>>>,
)
    requires
        first == encoding(v, s),
        second == encoding(v, s),
    ensures
        first == second,
{
}

} // verus!
