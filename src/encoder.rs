//! The encoder as a value, and smaller helpers around symbol units.
use vstd::prelude::*;
use crate::codec::{CodecError, decode_symbol, symbol_byte};
use crate::tokenizer::{DecodingError, EncodingError, decode, decoding, encode, encoding};
use crate::vocab::Vocabulary;

verus! {

/// An encoder bound to one vocabulary.
pub struct GPTEncoder {
    vocabulary: Vocabulary,
}

impl View for GPTEncoder {
    type V = Seq<(Seq<char>, u32)>;

    closed spec fn view(&self) -> Seq<(Seq<char>, u32)> {
        self.vocabulary@
    }
}

impl GPTEncoder {
    /// An encoder that reads `vocabulary`.
    pub fn new(vocabulary: Vocabulary) -> (r: GPTEncoder)
        ensures
            r@ == vocabulary@,
    {
        GPTEncoder { vocabulary }
    }

    /// The vocabulary in use.
    pub fn vocabulary(&self) -> (r: &Vocabulary)
        ensures
            r@ == self@,
    {
        &self.vocabulary
    }

    /// The token ids of `buffer`, as `encode` gives them.
    pub fn encode(&self, buffer: &[u8]) -> (r: Result<Vec<u32>, EncodingError>)
        ensures
            match r {
                Ok(ids) => encoding(self@, buffer@) == Some(Ok::<Seq<u32>, Seq<u8>>(ids@)),
                Err(EncodingError::UnmappableUnit(b)) => encoding(self@, buffer@) == Some(
                    Err::<Seq<u32>, Seq<u8>>(b@),
                ),
                Err(EncodingError::InvalidPattern) => encoding(self@, buffer@).is_none(),
            },
    {
        encode(buffer, &self.vocabulary)
    }

    /// The bytes of `ids`, as `decode` gives them.
    pub fn decode(&self, ids: &[u32]) -> (r: Result<Vec<u8>, DecodingError>)
        ensures
            match r {
                Ok(bytes) => decoding(self@, ids@) == Ok::<Seq<u8>, u32>(bytes@),
                Err(DecodingError::UnknownTokenId(id)) => decoding(self@, ids@) == Err::<Seq<u8>, u32>(id),
            },
    {
        decode(ids, &self.vocabulary)
    }
}

/// Each part with the one after it, in order.
pub fn unzip(parts: &Vec<String>) -> (r: Vec<[String; 2]>)
    ensures
        r@.len() == if parts@.len() == 0 { 0 } else { parts@.len() - 1 },
        forall|i: int|
            0 <= i < r@.len() ==> (#[trigger] r@[i])[0]@ == parts@[i]@ && r@[i][1]@ == parts@[i + 1]@,
{
    let mut out: Vec<[String; 2]> = Vec::new();
    if parts.len() == 0 {
        return out;
    }
    let n = parts.len();
    let mut i: usize = 0;
    while i < n - 1
        invariant
            n == parts@.len(),
            n > 0,
            i + 1 <= parts@.len(),
            out@.len() == i,
            forall|k: int|
                0 <= k < i ==> (#[trigger] out@[k])[0]@ == parts@[k]@ && out@[k][1]@ == parts@[k + 1]@,
        decreases parts@.len() - i,
    {
        let pair = [parts[i].clone(), parts[i + 1].clone()];
        out.push(pair);
        i = i + 1;
    }
    out
}

/// The byte that each symbol unit stands for, widened to 16 bits; an error
/// on the first unit that is no symbol.
pub fn ngram(grapheme: &Vec<Vec<u8>>) -> (r: Result<Vec<u16>, CodecError>)
    ensures
        match r {
            Ok(v) => v@.len() == grapheme@.len() && forall|i: int|
                0 <= i < v@.len() ==> symbol_byte(grapheme@[i]@) == Some(#[trigger] v@[i] as u8)
                    && v@[i] < 256,
            Err(CodecError::UnmappedSymbol(s)) => exists|i: int|
                0 <= i < grapheme@.len() && symbol_byte(#[trigger] grapheme@[i]@).is_none()
                    && s@ == grapheme@[i]@ && forall|j: int|
                    0 <= j < i ==> symbol_byte(#[trigger] grapheme@[j]@).is_some(),
        },
{
    let mut out: Vec<u16> = Vec::new();
    let mut i: usize = 0;
    while i < grapheme.len()
        invariant
            i <= grapheme@.len(),
            out@.len() == i,
            forall|k: int|
                0 <= k < i ==> symbol_byte(grapheme@[k]@) == Some(#[trigger] out@[k] as u8)
                    && out@[k] < 256,
        decreases grapheme@.len() - i,
    {
        match decode_symbol(grapheme[i].as_slice()) {
            Ok(b) => {
                out.push(b as u16);
            },
            Err(e) => {
                proof {
                    assert forall|j: int| 0 <= j < i implies symbol_byte(
                        #[trigger] grapheme@[j]@,
                    ).is_some() by {
                        assert(symbol_byte(grapheme@[j]@) == Some(out@[j] as u8));
                    }
                }
                return Err(e);
            },
        }
        i = i + 1;
    }
    Ok(out)
}

} // verus!
