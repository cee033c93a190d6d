//! Vocabulary tables: which symbol strings are tokens, and with which id.
//!
//! An entry pairs a key (a string of symbols) with a token id. The id of a
//! key is also its merge rank: a lower id merges first. Lookups go by the
//! first entry that fits, so a table behaves like a map with the earliest
//! entry of each key winning.
use vstd::prelude::*;
use vstd::utf8::*;
use crate::codec::slice_eq;

verus! {

/// Relies on `str::chars`: the characters of the text, in order.
#[verifier::external_body]
pub(crate) fn chars_of(s: &str) -> (r: Vec<char>)
    ensures
        r@ == s@,
{
    s.chars().collect()
}

/// Unicode white space, as `char::is_whitespace` defines it.
pub open spec fn is_space(c: char) -> bool {
    let p = c as u32;
    (0x09 <= p <= 0x0D) || p == 0x20 || p == 0x85 || p == 0xA0 || p == 0x1680 || (0x2000 <= p
        <= 0x200A) || p == 0x2028 || p == 0x2029 || p == 0x202F || p == 0x205F || p == 0x3000
}

/// A key that is one word: it has a non-space character, and no space
/// stands between two non-space characters.
pub open spec fn is_atomic(k: Seq<char>) -> bool {
    &&& exists|i: int| 0 <= i < k.len() && !is_space(#[trigger] k[i])
    &&& forall|i: int, j: int, l: int|
        0 <= i < j < l < k.len() && !is_space(#[trigger] k[i]) && is_space(#[trigger] k[j])
            ==> is_space(#[trigger] k[l])
}

/// Entry `i` is the first whose key spells the bytes `key`.
pub open spec fn first_key(v: Seq<(Seq<char>, u32)>, key: Seq<u8>, i: int) -> bool {
    &&& 0 <= i < v.len()
    &&& encode_utf8(v[i].0) == key
    &&& forall|j: int| 0 <= j < i ==> encode_utf8(#[trigger] v[j].0) != key
}

/// Entry `i` is the first one-word entry with id `id`.
pub open spec fn first_id(v: Seq<(Seq<char>, u32)>, id: u32, i: int) -> bool {
    &&& 0 <= i < v.len()
    &&& v[i].1 == id && is_atomic(v[i].0)
    &&& forall|j: int| 0 <= j < i ==> !(#[trigger] v[j].1 == id && is_atomic(v[j].0))
}

/// The id (and rank) of the byte string `key`, if a key spells it.
pub open spec fn forward(v: Seq<(Seq<char>, u32)>, key: Seq<u8>) -> Option<u32> {
    if exists|i: int| first_key(v, key, i) {
        Some(v[choose|i: int| first_key(v, key, i)].1)
    } else {
        None
    }
}

/// The key of token `id`, among one-word entries.
pub open spec fn backward(v: Seq<(Seq<char>, u32)>, id: u32) -> Option<Seq<char>> {
    if exists|i: int| first_id(v, id, i) {
        Some(v[choose|i: int| first_id(v, id, i)].0)
    } else {
        None
    }
}

proof fn lemma_first_key_unique(v: Seq<(Seq<char>, u32)>, key: Seq<u8>, i: int, j: int)
    requires
        first_key(v, key, i),
        first_key(v, key, j),
    ensures
        i == j,
{
    if i < j {
        assert(encode_utf8(v[i].0) != key);
    } else if j < i {
        assert(encode_utf8(v[j].0) != key);
    }
}

proof fn lemma_first_id_unique(v: Seq<(Seq<char>, u32)>, id: u32, i: int, j: int)
    requires
        first_id(v, id, i),
        first_id(v, id, j),
    ensures
        i == j,
{
    if i < j {
        assert(!(v[i].1 == id && is_atomic(v[i].0)));
    } else if j < i {
        assert(!(v[j].1 == id && is_atomic(v[j].0)));
    }
}

/// Whether `c` is white space.
pub fn char_is_space(c: char) -> (r: bool)
    ensures
        r == is_space(c),
{
    let p = c as u32;
    (0x09 <= p && p <= 0x0D) || p == 0x20 || p == 0x85 || p == 0xA0 || p == 0x1680 || (0x2000 <= p
        && p <= 0x200A) || p == 0x2028 || p == 0x2029 || p == 0x202F || p == 0x205F || p == 0x3000
}

/// Whether the key is a single word.
pub fn key_is_atomic(k: &str) -> (r: bool)
    ensures
        r == is_atomic(k@),
{
    let cs = chars_of(k);
    // 0: no word yet; 1: inside the first word; 2: in space after it
    let mut state: u8 = 0;
    let mut i: usize = 0;
    while i < cs.len()
        invariant
            i <= cs@.len(),
            cs@ == k@,
            state <= 2,
            state == 0 <==> forall|m: int| 0 <= m < i ==> is_space(#[trigger] cs@[m]),
            state == 1 ==> i > 0 && !is_space(cs@[i - 1]),
            state == 2 ==> i > 0 && is_space(cs@[i - 1]),
            state == 2 ==> exists|m: int| 0 <= m < i && !is_space(#[trigger] cs@[m]),
            forall|a: int, b: int, l: int|
                0 <= a < b < l < i && !is_space(#[trigger] cs@[a]) && is_space(#[trigger] cs@[b])
                    ==> is_space(#[trigger] cs@[l]),
            state == 1 ==> forall|a: int, b: int|
                0 <= a < b < i && !is_space(#[trigger] cs@[a]) ==> !is_space(#[trigger] cs@[b]),
        decreases cs@.len() - i,
    {
        let space = char_is_space(cs[i]);
        if space {
            if state == 1 {
                state = 2;
            }
        } else {
            if state == 2 {
                proof {
                    let m = choose|m: int| 0 <= m < i && !is_space(#[trigger] cs@[m]);
                    let l = i as int;
                    let w = i - 1;
                    assert(!is_space(cs@[m]) && is_space(cs@[w as int]) && !is_space(cs@[l]));
                    if m < w {
                    } else {
                        assert(false);
                    }
                }
                return false;
            }
            if state == 0 {
                state = 1;
            }
        }
        i = i + 1;
    }
    if state == 0 {
        assert(!(exists|m: int| 0 <= m < cs@.len() && !is_space(#[trigger] cs@[m])));
        false
    } else {
        true
    }
}

/// The index bucket of a key: its first byte, or 256 for the empty key.
pub open spec fn bucket_of(k: Seq<u8>) -> int {
    if k.len() == 0 {
        256
    } else {
        k[0] as int
    }
}

/// A table of token entries, searched in order. An index lists, for each
/// first byte, the entries whose key starts with it, in table order.
pub struct Vocabulary {
    entries: Vec<(String, u32)>,
    buckets: Vec<Vec<usize>>,
    /// Where each entry stands in its bucket.
    slots: Ghost<Seq<int>>,
}

impl View for Vocabulary {
    type V = Seq<(Seq<char>, u32)>;

    closed spec fn view(&self) -> Seq<(Seq<char>, u32)> {
        self.entries@.map_values(|e: (String, u32)| (e.0@, e.1))
    }
}

/// Where `key` falls in the index.
fn bucket_index(key: &[u8]) -> (r: usize)
    ensures
        r == bucket_of(key@),
{
    if key.len() == 0 {
        256
    } else {
        key[0] as usize
    }
}

/// The bucket of entry `i`.
pub open spec fn entry_bucket(entries: Seq<(String, u32)>, i: int) -> int {
    bucket_of(encode_utf8(entries[i].0@))
}

/// Every bucket lists, in increasing order, only entries whose key bytes
/// fall in it, and entry `i` stands in its bucket at `slots[i]`.
pub open spec fn index_ok(entries: Seq<(String, u32)>, buckets: Seq<Vec<usize>>, slots: Seq<int>) -> bool {
    &&& buckets.len() == 257
    &&& slots.len() == entries.len()
    &&& forall|b: int, k: int|
        0 <= b < 257 && 0 <= k < buckets[b]@.len() ==> 0 <= #[trigger] buckets[b]@[k] < entries.len()
            && entry_bucket(entries, buckets[b]@[k] as int) == b
    &&& forall|b: int, k1: int, k2: int|
        0 <= b < 257 && 0 <= k1 < k2 < buckets[b]@.len() ==> #[trigger] buckets[b]@[k1]
            < #[trigger] buckets[b]@[k2]
    &&& forall|i: int|
        0 <= i < entries.len() ==> 0 <= #[trigger] slots[i] < buckets[entry_bucket(entries, i)]@.len()
            && buckets[entry_bucket(entries, i)]@[slots[i]] == i
}

impl Vocabulary {
    /// The index is right for the entries.
    #[verifier::type_invariant]
    closed spec fn indexed(self) -> bool {
        index_ok(self.entries@, self.buckets@, self.slots@)
    }

    /// An empty table.
    pub fn new() -> (r: Vocabulary)
        ensures
            r@ == Seq::<(Seq<char>, u32)>::empty(),
    {
        let mut buckets: Vec<Vec<usize>> = Vec::new();
        let mut b: usize = 0;
        while b < 257
            invariant
                b <= 257,
                buckets@.len() == b,
                forall|c: int| 0 <= c < b ==> (#[trigger] buckets@[c])@.len() == 0,
            decreases 257 - b,
        {
            buckets.push(Vec::new());
            b = b + 1;
        }
        let r = Vocabulary { entries: Vec::new(), buckets, slots: Ghost(Seq::empty()) };
        assert(r@ =~= Seq::<(Seq<char>, u32)>::empty());
        r
    }

    /// A table holding `entries` in the given order.
    pub fn from_entries(entries: Vec<(String, u32)>) -> (r: Vocabulary)
        ensures
            r@ == entries@.map_values(|e: (String, u32)| (e.0@, e.1)),
    {
        let mut v = Vocabulary::new();
        let mut i: usize = 0;
        while i < entries.len()
            invariant
                i <= entries@.len(),
                v@ == entries@.subrange(0, i as int).map_values(|e: (String, u32)| (e.0@, e.1)),
            decreases entries@.len() - i,
        {
            v.insert(entries[i].0.clone(), entries[i].1);
            i = i + 1;
            assert(v@ =~= entries@.subrange(0, i as int).map_values(|e: (String, u32)| (e.0@, e.1)));
        }
        assert(entries@.subrange(0, i as int) =~= entries@);
        v
    }

    /// Adds an entry after all present ones.
    pub fn insert(&mut self, key: String, id: u32)
        ensures
            final(self)@ == old(self)@.push((key@, id)),
    {
        let ghost k = key@;
        let b = bucket_index(key.as_str().as_bytes());
        let mut taken = Vocabulary::new();
        core::mem::swap(self, &mut taken);
        proof {
            use_type_invariant(&taken);
        }
        let Vocabulary { mut entries, mut buckets, slots } = taken;
        let ghost old_buckets = buckets@;
        let ghost old_entries = entries@;
        let n = entries.len();
        let mut bucket = buckets.remove(b);
        let ghost slot = bucket@.len() as int;
        bucket.push(n);
        buckets.insert(b, bucket);
        entries.push((key, id));
        let ghost new_slots = slots@.push(slot);
        proof {
            assert(buckets@.len() == 257);
            assert forall|c: int| 0 <= c < 257 && c != b implies #[trigger] buckets@[c] == old_buckets[c] by {}
            assert(buckets@[b as int]@ == old_buckets[b as int]@.push(n));
            assert(entry_bucket(entries@, n as int) == b);
            assert forall|i: int| 0 <= i < n implies #[trigger] entry_bucket(entries@, i) == entry_bucket(
                old_entries,
                i,
            ) by {
                assert(entries@[i] == old_entries[i]);
            }
            assert forall|c: int, j: int| 0 <= c < 257 && 0 <= j < buckets@[c]@.len() implies 0
                <= #[trigger] buckets@[c]@[j] < entries@.len() && entry_bucket(entries@, buckets@[c]@[j] as int)
                == c by {
                if c != b || j < old_buckets[c]@.len() {
                    assert(buckets@[c]@[j] == old_buckets[c]@[j]);
                }
            }
            assert forall|c: int, k1: int, k2: int|
                0 <= c < 257 && 0 <= k1 < k2 < buckets@[c]@.len() implies #[trigger] buckets@[c]@[k1]
                    < #[trigger] buckets@[c]@[k2] by {
                assert(buckets@[c]@[k1] == old_buckets[c]@[k1]);
                if c != b || k2 < old_buckets[c]@.len() {
                    assert(buckets@[c]@[k2] == old_buckets[c]@[k2]);
                }
            }
            assert forall|i: int| 0 <= i < entries@.len() implies 0 <= #[trigger] new_slots[i]
                < buckets@[entry_bucket(entries@, i)]@.len() && buckets@[entry_bucket(entries@, i)]@[new_slots[i]]
                == i by {
                if i < n {
                    let c = entry_bucket(entries@, i);
                    assert(new_slots[i] == slots@[i]);
                    assert(old_buckets[c]@[slots@[i]] == i);
                    if c == b {
                        assert(buckets@[c]@[slots@[i]] == old_buckets[c]@[slots@[i]]);
                    }
                }
            }
            assert(index_ok(entries@, buckets@, new_slots));
        }
        *self = Vocabulary { entries, buckets, slots: Ghost(new_slots) };
        assert(old(self)@ == old_entries.map_values(|e: (String, u32)| (e.0@, e.1)));
        assert(self@ =~= old(self)@.push((k, id)));
    }

    /// Number of entries.
    pub fn len(&self) -> (r: usize)
        ensures
            r == self@.len(),
    {
        self.entries.len()
    }

    /// The id of the key that spells `key`.
    pub fn lookup_forward(&self, key: &[u8]) -> (r: Option<u32>)
        ensures
            r == forward(self@, key@),
    {
        proof {
            use_type_invariant(self);
        }
        let b = bucket_index(key);
        let bucket = &self.buckets[b];
        let mut k: usize = 0;
        while k < bucket.len()
            invariant
                index_ok(self.entries@, self.buckets@, self.slots@),
                k <= bucket@.len(),
                bucket == self.buckets@[b as int],
                b < 257,
                self@.len() == self.entries@.len(),
                forall|m: int| 0 <= m < k ==> encode_utf8(self@[#[trigger] bucket@[m] as int].0) != key@,
            decreases bucket@.len() - k,
        {
            let i = bucket[k];
            let entry = &self.entries[i];
            assert(self@[i as int] == (entry.0@, entry.1));
            if slice_eq(entry.0.as_str().as_bytes(), key) {
                proof {
                    assert forall|j: int| 0 <= j < i implies encode_utf8(#[trigger] self@[j].0) != key@ by {
                        if encode_utf8(self@[j].0) == key@ {
                            assert(self.entries@[j].0@ == self@[j].0);
                            let m = self.slots@[j];
                            assert(bucket@[m] == j);
                            if m >= k as int {
                                if m > k as int {
                                    assert(bucket@[k as int] < bucket@[m]);
                                }
                            }
                            assert(encode_utf8(self@[bucket@[m] as int].0) != key@);
                        }
                    }
                    assert(first_key(self@, key@, i as int));
                    let c = choose|c: int| first_key(self@, key@, c);
                    lemma_first_key_unique(self@, key@, i as int, c);
                }
                return Some(entry.1);
            }
            k = k + 1;
        }
        proof {
            if exists|c: int| first_key(self@, key@, c) {
                let c = choose|c: int| first_key(self@, key@, c);
                assert(self.entries@[c].0@ == self@[c].0);
                let m = self.slots@[c];
                assert(bucket@[m] == c);
                assert(encode_utf8(self@[bucket@[m] as int].0) != key@);
            }
        }
        None
    }

    /// The key of token `id`, among entries whose key is one word.
    pub fn lookup_reverse(&self, id: u32) -> (r: Option<String>)
        ensures
            match r {
                Some(k) => backward(self@, id) == Some(k@),
                None => backward(self@, id).is_none(),
            },
    {
        let mut i: usize = 0;
        while i < self.entries.len()
            invariant
                i <= self@.len(),
                self@.len() == self.entries@.len(),
                forall|j: int| 0 <= j < i ==> !(#[trigger] self@[j].1 == id && is_atomic(self@[j].0)),
            decreases self@.len() - i,
        {
            let entry = &self.entries[i];
            assert(self@[i as int] == (entry.0@, entry.1));
            if entry.1 == id && key_is_atomic(entry.0.as_str()) {
                proof {
                    assert(first_id(self@, id, i as int));
                    let c = choose|c: int| first_id(self@, id, c);
                    lemma_first_id_unique(self@, id, i as int, c);
                }
                return Some(entry.0.clone());
            }
            i = i + 1;
        }
        proof {
            if exists|c: int| first_id(self@, id, c) {
                let c = choose|c: int| first_id(self@, id, c);
                assert(!(self@[c].1 == id && is_atomic(self@[c].0)));
            }
        }
        None
    }
}

/// Why a vocabulary could not be loaded.
#[derive(Debug, Clone, PartialEq, Eq)]
pub enum ConfigurationError {
    /// The line at this index (from zero) is not a JSON object of ids.
    MalformedLine(usize),
}

/// The entries of a JSON object that maps strings to ids, in key order, or
/// `None` where the text is no such object.
pub uninterp spec fn json_entries(line: Seq<char>) -> Option<Seq<(Seq<char>, u32)>>;

#[verifier::external_type_specification]
#[verifier::external_body]
pub struct ExJsonError(serde_json::Error);

/// Relies on `serde_json::from_str` into a `BTreeMap<String, u32>`: the
/// object's entries, or an error where the text is no such object.
#[verifier::external_body]
fn parse_object(line: &str) -> (r: Result<Vec<(String, u32)>, serde_json::Error>)
    ensures
        match r {
            Ok(v) => json_entries(line@) == Some(v@.map_values(|e: (String, u32)| (e.0@, e.1))),
            Err(_) => json_entries(line@).is_none(),
        },
{
    let map: std::collections::BTreeMap<String, u32> = serde_json::from_str(line)?;
    Ok(map.into_iter().collect())
}

/// A line that holds no entries: empty, all white space, or a comment
/// starting with `#`.
pub open spec fn is_skipped(line: Seq<char>) -> bool {
    (line.len() > 0 && line[0] == '#') || forall|i: int| 0 <= i < line.len() ==> is_space(#[trigger] line[i])
}

/// The entries of vocabulary lines, line after line; or the first line
/// that is neither skipped nor a JSON object of ids.
pub open spec fn lines_entries(lines: Seq<Seq<char>>) -> Result<Seq<(Seq<char>, u32)>, int>
    decreases lines.len(),
{
    if lines.len() == 0 {
        Ok(Seq::empty())
    } else {
        match lines_entries(lines.drop_last()) {
            Err(i) => Err(i),
            Ok(before) => if is_skipped(lines.last()) {
                Ok(before)
            } else {
                match json_entries(lines.last()) {
                    Some(e) => Ok(before + e),
                    None => Err(lines.len() - 1),
                }
            },
        }
    }
}

/// Whether `line` holds no entries.
pub fn line_is_skipped(line: &str) -> (r: bool)
    ensures
        r == is_skipped(line@),
{
    let cs = chars_of(line);
    if cs.len() > 0 && cs[0] == '#' {
        return true;
    }
    let mut i: usize = 0;
    while i < cs.len()
        invariant
            i <= cs@.len(),
            cs@ == line@,
            !(cs@.len() > 0 && cs@[0] == '#'),
            forall|j: int| 0 <= j < i ==> is_space(#[trigger] cs@[j]),
        decreases cs@.len() - i,
    {
        if !char_is_space(cs[i]) {
            proof {
                assert(!is_space(line@[i as int]));
            }
            return false;
        }
        i = i + 1;
    }
    true
}

proof fn lemma_lines_error_stays(ls: Seq<Seq<char>>, j: int, k: int)
    requires
        0 <= j <= k <= ls.len(),
        lines_entries(ls.subrange(0, j)) is Err,
    ensures
        lines_entries(ls.subrange(0, k)) == lines_entries(ls.subrange(0, j)),
    decreases k - j,
{
    if k > j {
        lemma_lines_error_stays(ls, j, k - 1);
        assert(ls.subrange(0, k).drop_last() =~= ls.subrange(0, k - 1));
    }
}

impl Vocabulary {
    /// A table from vocabulary lines: each line is skipped or a JSON object
    /// from keys to ids, and entries come in line order.
    pub fn from_lines(lines: &Vec<String>) -> (r: Result<Vocabulary, ConfigurationError>)
        ensures
            match r {
                Ok(v) => lines_entries(lines@.map_values(|l: String| l@)) == Ok::<Seq<(Seq<char>, u32)>, int>(v@),
                Err(ConfigurationError::MalformedLine(i)) => lines_entries(lines@.map_values(|l: String| l@))
                    == Err::<Seq<(Seq<char>, u32)>, int>(i as int),
            },
    {
        let ghost ls = lines@.map_values(|l: String| l@);
        let mut vocabulary = Vocabulary::new();
        let mut i: usize = 0;
        while i < lines.len()
            invariant
                i <= lines@.len(),
                ls == lines@.map_values(|l: String| l@),
                lines_entries(ls.subrange(0, i as int)) == Ok::<Seq<(Seq<char>, u32)>, int>(vocabulary@),
            decreases lines@.len() - i,
        {
            let ghost upto = ls.subrange(0, i + 1);
            assert(upto.drop_last() =~= ls.subrange(0, i as int));
            assert(upto.last() == lines@[i as int]@);
            let line = lines[i].as_str();
            if !line_is_skipped(line) {
                match parse_object(line) {
                    Ok(entries) => {
                        let mut k: usize = 0;
                        let ghost before = vocabulary@;
                        while k < entries.len()
                            invariant
                                k <= entries@.len(),
                                vocabulary@ == before + entries@.subrange(0, k as int).map_values(
                                    |e: (String, u32)| (e.0@, e.1),
                                ),
                            decreases entries@.len() - k,
                        {
                            let (key, id) = (entries[k].0.clone(), entries[k].1);
                            vocabulary.insert(key, id);
                            k = k + 1;
                            assert(vocabulary@ =~= before + entries@.subrange(0, k as int).map_values(
                                |e: (String, u32)| (e.0@, e.1),
                            ));
                        }
                        assert(entries@.subrange(0, k as int) =~= entries@);
                    },
                    Err(_) => {
                        proof {
                            lemma_lines_error_stays(ls, i + 1, ls.len() as int);
                            assert(ls.subrange(0, ls.len() as int) =~= ls);
                        }
                        return Err(ConfigurationError::MalformedLine(i));
                    },
                }
            }
            i = i + 1;
        }
        assert(ls.subrange(0, i as int) =~= ls);
        Ok(vocabulary)
    }
}

} // verus!
