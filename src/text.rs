//! Turning raw input into symbol units.
//!
//! The input is read as UTF-8 (invalid sequences are replaced) and every
//! UTF-8 byte of the text becomes the symbol of that byte. `segment` also
//! groups those symbols by extended grapheme cluster.
use vstd::prelude::*;
use vstd::utf8::*;
use crate::codec::{encode_byte, symbol, symbols};

verus! {

/// The text that lossy UTF-8 decoding reads from `b`.
pub uninterp spec fn lossy_text(b: Seq<u8>) -> Seq<char>;

/// The extended grapheme clusters of a text, in order.
pub uninterp spec fn grapheme_clusters(s: Seq<char>) -> Seq<Seq<char>>;

/// Relies on `String::from_utf8_lossy`: valid UTF-8 is read as it stands;
/// anything else has its invalid sequences replaced.
#[verifier::external_body]
fn lossy(b: &[u8]) -> (r: String)
    ensures
        r@ == lossy_text(b@),
        valid_utf8(b@) ==> r@ == decode_utf8(b@),
{
    String::from_utf8_lossy(b).into_owned()
}

/// Relies on `UnicodeSegmentation::graphemes` with extended clusters: the
/// clusters are consecutive slices of the text, so together they spell it.
#[verifier::external_body]
pub(crate) fn clusters_of(s: &str) -> (r: Vec<String>)
    ensures
        r@.map_values(|g: String| g@) == grapheme_clusters(s@),
        r@.map_values(|g: String| g@).flatten() == s@,
{
    unicode_segmentation::UnicodeSegmentation::graphemes(s, true).map(|g| g.to_string()).collect()
}

/// The symbol units of each grapheme cluster of the text read from `b`.
pub open spec fn cluster_units(b: Seq<u8>) -> Seq<Seq<Seq<u8>>> {
    grapheme_clusters(lossy_text(b)).map_values(|c: Seq<char>| symbols(encode_utf8(c)))
}

/// The symbol units of the text read from `b`, one per UTF-8 byte.
pub open spec fn text_units(b: Seq<u8>) -> Seq<Seq<u8>> {
    symbols(encode_utf8(lossy_text(b)))
}

/// UTF-8 encoding distributes over concatenation.
pub proof fn lemma_encode_utf8_concat(a: Seq<char>, b: Seq<char>)
    ensures
        encode_utf8(a + b) == encode_utf8(a) + encode_utf8(b),
    decreases a.len(),
{
    if a.len() == 0 {
        assert(a + b =~= b);
        assert(encode_utf8(a) + encode_utf8(b) =~= encode_utf8(b));
    } else {
        assert((a + b).drop_first() =~= a.drop_first() + b);
        lemma_encode_utf8_concat(a.drop_first(), b);
        assert(encode_utf8(a + b) =~= encode_scalar(a[0] as u32) + encode_utf8(a.drop_first() + b));
        assert(encode_utf8(a + b) =~= encode_utf8(a) + encode_utf8(b));
    }
}

/// Symbols of a concatenation are the symbols of the parts.
pub proof fn lemma_symbols_concat(a: Seq<u8>, b: Seq<u8>)
    ensures
        symbols(a + b) == symbols(a) + symbols(b),
{
    assert(symbols(a + b) =~= symbols(a) + symbols(b));
}

proof fn lemma_cluster_units_flatten(cs: Seq<Seq<char>>)
    ensures
        cs.map_values(|c: Seq<char>| symbols(encode_utf8(c))).flatten() == symbols(
            encode_utf8(cs.flatten()),
        ),
    decreases cs.len(),
{
    if cs.len() == 0 {
        assert(symbols(encode_utf8(cs.flatten())) =~= Seq::<Seq<u8>>::empty());
    } else {
        let f = |c: Seq<char>| symbols(encode_utf8(c));
        lemma_cluster_units_flatten(cs.drop_first());
        assert(cs.map_values(f).drop_first() =~= cs.drop_first().map_values(f));
        lemma_encode_utf8_concat(cs[0], cs.drop_first().flatten());
        lemma_symbols_concat(encode_utf8(cs[0]), encode_utf8(cs.drop_first().flatten()));
    }
}

/// Cuts `slice` into grapheme clusters and gives, for each cluster, the
/// symbols of its UTF-8 bytes in order.
pub fn segment(slice: &[u8]) -> (r: Vec<Vec<Vec<u8>>>)
    ensures
        r.deep_view() == cluster_units(slice@),
        r.deep_view().flatten() == text_units(slice@),
{
    let text = lossy(slice);
    let clusters = clusters_of(text.as_str());
    let ghost cs = clusters@.map_values(|g: String| g@);
    let mut out: Vec<Vec<Vec<u8>>> = Vec::new();
    let mut i: usize = 0;
    while i < clusters.len()
        invariant
            i <= clusters@.len(),
            cs == grapheme_clusters(text@),
            cs.len() == clusters@.len(),
            forall|k: int| 0 <= k < clusters@.len() ==> cs[k] == #[trigger] clusters@[k]@,
            out.deep_view() =~= cs.subrange(0, i as int).map_values(
                |c: Seq<char>| symbols(encode_utf8(c)),
            ),
        decreases clusters@.len() - i,
    {
        let bytes = clusters[i].as_str().as_bytes();
        let mut unit: Vec<Vec<u8>> = Vec::new();
        let mut j: usize = 0;
        while j < bytes.len()
            invariant
                j <= bytes@.len(),
                unit.deep_view() =~= symbols(bytes@.subrange(0, j as int)),
            decreases bytes@.len() - j,
        {
            let sym = encode_byte(bytes[j]);
            let ghost prev = unit.deep_view();
            assert(sym.deep_view() =~= sym@);
            unit.push(sym);
            assert(unit.deep_view() =~= prev.push(symbol(bytes@[j as int])));
            assert(bytes@.subrange(0, j + 1) =~= bytes@.subrange(0, j as int).push(bytes@[j as int]));
            j = j + 1;
        }
        assert(bytes@.subrange(0, j as int) =~= bytes@);
        let ghost prev = out.deep_view();
        out.push(unit);
        assert(out.deep_view() =~= prev.push(symbols(encode_utf8(cs[i as int]))));
        assert(cs.subrange(0, i + 1) =~= cs.subrange(0, i as int).push(cs[i as int]));
        i = i + 1;
    }
    proof {
        assert(cs.subrange(0, i as int) =~= cs);
        lemma_cluster_units_flatten(cs);
    }
    out
}

/// The symbol units of a text, one per byte of its UTF-8 encoding.
pub fn symbols_of_text(text: &str) -> (r: Vec<Vec<u8>>)
    ensures
        r.deep_view() == symbols(encode_utf8(text@)),
{
    let bytes = text.as_bytes();
    let mut out: Vec<Vec<u8>> = Vec::new();
    let mut j: usize = 0;
    while j < bytes.len()
        invariant
            j <= bytes@.len(),
            bytes@ == encode_utf8(text@),
            out.deep_view() =~= symbols(bytes@.subrange(0, j as int)),
        decreases bytes@.len() - j,
    {
        let sym = encode_byte(bytes[j]);
        let ghost prev = out.deep_view();
        assert(sym.deep_view() =~= sym@);
        out.push(sym);
        assert(out.deep_view() =~= prev.push(symbol(bytes@[j as int])));
        assert(bytes@.subrange(0, j + 1) =~= bytes@.subrange(0, j as int).push(bytes@[j as int]));
        j = j + 1;
    }
    assert(bytes@.subrange(0, j as int) =~= bytes@);
    out
}

/// The symbol units of `slice`, one per UTF-8 byte of its lossy reading,
/// in order.
pub fn grapheme(slice: &[u8]) -> (r: Vec<Vec<u8>>)
    ensures
        r.deep_view() == text_units(slice@),
{
    let text = lossy(slice);
    symbols_of_text(text.as_str())
}

} // verus!
