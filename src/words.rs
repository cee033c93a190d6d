//! Cutting input into words before any merge.
//!
//! A fixed pattern picks contraction suffixes, runs of letters, runs of
//! digits, runs of other symbols (each optionally after one space) and runs
//! of whitespace. Bytes that no match covers become pieces of their own, so
//! the pieces always spell the whole input.
use vstd::prelude::*;

verus! {

/// The pattern that finds words, tried alternative by alternative.
pub const WORD_PATTERN: &'static str = "(?u)'s|'t|'re|'ve|'m|'l l|'d| ?\\p{L}+| ?\\p{N}+| ?[^\\s\\p{L}\\p{N}]+|\\s+(\\S)|\\s+";

#[verifier::external_type_specification]
#[verifier::external_body]
pub struct ExRegexError(regex::Error);

/// The successive matches of `pattern` in `hay` as byte ranges, or `None`
/// where the pattern does not compile.
pub uninterp spec fn pattern_matches(pattern: Seq<char>, hay: Seq<u8>) -> Option<Seq<(usize, usize)>>;

/// Ranges that lie inside a haystack of `len` bytes, each before the next.
pub open spec fn ordered_spans(spans: Seq<(usize, usize)>, len: int) -> bool {
    &&& forall|i: int| 0 <= i < spans.len() ==> #[trigger] spans[i].0 <= spans[i].1 <= len
    &&& forall|i: int| 0 <= i < spans.len() - 1 ==> #[trigger] spans[i].1 <= spans[i + 1].0
}

/// Relies on `regex::bytes::Regex::new` and `find_iter`: the matches come as
/// successive non-overlapping ranges with `start <= end` inside the haystack.
#[verifier::external_body]
fn find_spans(pattern: &str, hay: &[u8]) -> (r: Result<Vec<(usize, usize)>, regex::Error>)
    ensures
        match r {
            Ok(v) => pattern_matches(pattern@, hay@) == Some(v@) && ordered_spans(v@, hay@.len() as int),
            Err(_) => pattern_matches(pattern@, hay@).is_none(),
        },
{
    let re = regex::bytes::Regex::new(pattern)?;
    Ok(re.find_iter(hay).map(|m| (m.start(), m.end())).collect())
}

/// The pieces of `hay` from position `pos` on: for each range, the bytes
/// before it that no earlier range took, then the range itself (empty
/// pieces are left out), and last whatever follows the last range.
pub open spec fn cut(hay: Seq<u8>, spans: Seq<(usize, usize)>, pos: int) -> Seq<Seq<u8>>
    decreases spans.len(),
{
    if spans.len() == 0 {
        if pos < hay.len() {
            seq![hay.subrange(pos, hay.len() as int)]
        } else {
            Seq::empty()
        }
    } else {
        let s = spans[0].0 as int;
        let e = spans[0].1 as int;
        let gap = if pos < s { seq![hay.subrange(pos, s)] } else { Seq::empty() };
        let word = if s < e { seq![hay.subrange(s, e)] } else { Seq::empty() };
        gap + word + cut(hay, spans.drop_first(), e)
    }
}

/// The words of `hay`: the pieces that the matches of the word pattern cut.
pub open spec fn words_of(hay: Seq<u8>) -> Option<Seq<Seq<u8>>> {
    match pattern_matches(WORD_PATTERN@, hay) {
        Some(spans) => if ordered_spans(spans, hay.len() as int) {
            Some(cut(hay, spans, 0))
        } else {
            None
        },
        None => None,
    }
}

/// The words of any input spell it exactly: joined in order they give the
/// input back, with no gap, overlap or reordering.
pub proof fn lemma_words_cover(hay: Seq<u8>)
    requires
        words_of(hay) is Some,
    ensures
        words_of(hay)->0.flatten() == hay,
{
    let spans = pattern_matches(WORD_PATTERN@, hay)->0;
    if spans.len() > 0 {
        assert(spans[0].0 <= spans[0].1);
    }
    lemma_cut_covers(hay, spans, 0);
    assert(hay.subrange(0, hay.len() as int) =~= hay);
}

/// Pieces cut by ordered ranges spell the rest of the haystack exactly: no
/// byte is lost, repeated or moved.
pub proof fn lemma_cut_covers(hay: Seq<u8>, spans: Seq<(usize, usize)>, pos: int)
    requires
        ordered_spans(spans, hay.len() as int),
        0 <= pos <= hay.len(),
        spans.len() > 0 ==> pos <= spans[0].0,
    ensures
        cut(hay, spans, pos).flatten() == hay.subrange(pos, hay.len() as int),
    decreases spans.len(),
{
    if spans.len() == 0 {
        if pos < hay.len() {
            let one = seq![hay.subrange(pos, hay.len() as int)];
            one.lemma_flatten_singleton();
        } else {
            assert(hay.subrange(pos, hay.len() as int) =~= Seq::<u8>::empty());
        }
    } else {
        let s = spans[0].0 as int;
        let e = spans[0].1 as int;
        let rest = spans.drop_first();
        assert(ordered_spans(rest, hay.len() as int)) by {
            assert forall|i: int| 0 <= i < rest.len() implies #[trigger] rest[i].0 <= rest[i].1 <= hay.len() by {
                assert(rest[i] == spans[i + 1]);
            }
            assert forall|i: int| 0 <= i < rest.len() - 1 implies #[trigger] rest[i].1 <= rest[i + 1].0 by {
                assert(rest[i] == spans[i + 1]);
                assert(spans[i + 1].1 <= spans[i + 2].0);
            }
        }
        if rest.len() > 0 {
            assert(spans[0].1 <= spans[1].0);
        }
        lemma_cut_covers(hay, rest, e);
        let gap: Seq<Seq<u8>> = if pos < s { seq![hay.subrange(pos, s)] } else { Seq::empty() };
        let word: Seq<Seq<u8>> = if s < e { seq![hay.subrange(s, e)] } else { Seq::empty() };
        let tail = cut(hay, rest, e);
        vstd::seq_lib::lemma_flatten_concat(gap + word, tail);
        vstd::seq_lib::lemma_flatten_concat(gap, word);
        if pos < s {
            gap.lemma_flatten_singleton();
        }
        if s < e {
            word.lemma_flatten_singleton();
        }
        assert(gap.flatten() =~= hay.subrange(pos, s));
        assert(word.flatten() =~= hay.subrange(s, e));
        assert(hay.subrange(pos, hay.len() as int) =~= hay.subrange(pos, s) + hay.subrange(s, e)
            + hay.subrange(e, hay.len() as int));
    }
}

/// Cuts `hay` at the given ordered ranges, as `cut` describes.
pub fn cut_at(hay: &[u8], spans: &Vec<(usize, usize)>) -> (r: Vec<Vec<u8>>)
    requires
        ordered_spans(spans@, hay@.len() as int),
    ensures
        r.deep_view() == cut(hay@, spans@, 0),
{
    let mut out: Vec<Vec<u8>> = Vec::new();
    let mut pos: usize = 0;
    let mut i: usize = 0;
    assert(spans@.subrange(0, spans@.len() as int) =~= spans@);
    assert(out.deep_view() + cut(hay@, spans@, 0) =~= cut(hay@, spans@, 0));
    while i < spans.len()
        invariant
            i <= spans@.len(),
            ordered_spans(spans@, hay@.len() as int),
            pos <= hay@.len(),
            i < spans@.len() ==> pos <= spans@[i as int].0,
            i > 0 ==> pos == spans@[i - 1].1,
            out.deep_view() + cut(hay@, spans@.subrange(i as int, spans@.len() as int), pos as int)
                == cut(hay@, spans@, 0),
        decreases spans@.len() - i,
    {
        let (s, e) = spans[i];
        let ghost rest = spans@.subrange(i as int, spans@.len() as int);
        let ghost before = out.deep_view();
        assert(rest[0] == spans@[i as int]);
        assert(rest.drop_first() =~= spans@.subrange(i + 1, spans@.len() as int));
        let ghost gap: Seq<Seq<u8>> = if pos < s { seq![hay@.subrange(pos as int, s as int)] } else { Seq::empty() };
        let ghost word: Seq<Seq<u8>> = if s < e { seq![hay@.subrange(s as int, e as int)] } else { Seq::empty() };
        if pos < s {
            let piece = vstd::slice::slice_to_vec(vstd::slice::slice_subrange(hay, pos, s));
            let ghost prev = out.deep_view();
            assert(piece.deep_view() =~= piece@);
            out.push(piece);
            assert(out.deep_view() =~= prev.push(hay@.subrange(pos as int, s as int)));
        }
        assert(out.deep_view() =~= before + gap);
        if s < e {
            let piece = vstd::slice::slice_to_vec(vstd::slice::slice_subrange(hay, s, e));
            let ghost prev = out.deep_view();
            assert(piece.deep_view() =~= piece@);
            out.push(piece);
            assert(out.deep_view() =~= prev.push(hay@.subrange(s as int, e as int)));
        }
        assert(out.deep_view() =~= before + gap + word);
        assert(before + (gap + word + cut(hay@, rest.drop_first(), e as int)) =~= before + gap + word
            + cut(hay@, rest.drop_first(), e as int));
        pos = e;
        i = i + 1;
        if i < spans.len() {
            assert(spans@[i - 1].1 <= spans@[i as int].0);
        }
    }
    if pos < hay.len() {
        let piece = vstd::slice::slice_to_vec(vstd::slice::slice_subrange(hay, pos, hay.len()));
        let ghost prev = out.deep_view();
        assert(piece.deep_view() =~= piece@);
        out.push(piece);
        assert(out.deep_view() =~= prev.push(hay@.subrange(pos as int, hay@.len() as int)));
        assert(prev + cut(hay@, spans@.subrange(i as int, spans@.len() as int), pos as int)
            =~= out.deep_view());
    } else {
        assert(out.deep_view() + cut(hay@, spans@.subrange(i as int, spans@.len() as int), pos as int)
            =~= out.deep_view());
    }
    out
}

/// Error where the word pattern cannot be compiled.
#[derive(Debug, Clone, PartialEq, Eq)]
pub enum PatternError {
    Invalid,
}

/// The words of `slice`, in order; together they spell `slice` exactly.
pub fn tokens(slice: &[u8]) -> (r: Result<Vec<Vec<u8>>, PatternError>)
    ensures
        match r {
            Ok(w) => words_of(slice@) == Some(w.deep_view()) && w.deep_view().flatten() == slice@,
            Err(_) => words_of(slice@).is_none(),
        },
{
    match find_spans(WORD_PATTERN, slice) {
        Ok(spans) => {
            let w = cut_at(slice, &spans);
            proof {
                lemma_cut_covers(slice@, spans@, 0);
                assert(slice@.subrange(0, slice@.len() as int) =~= slice@);
            }
            Ok(w)
        },
        Err(_) => Err(PatternError::Invalid),
    }
}

} // verus!
