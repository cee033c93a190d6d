//! Grammar rules and chart states for an Earley recognizer.
//!
//! A rule is written `lhs -> a b | c`: a left-hand symbol, an arrow, and
//! alternatives separated by `|`, each a list of symbols separated by
//! spaces. The chart and its states only carry their bookkeeping so far.
use vstd::prelude::*;
use crate::vocab::{chars_of, is_space};

verus! {

/// Relies on `String`'s `FromIterator<&char>`: the string of these characters.
#[verifier::external_body]
fn string_of(cs: &[char]) -> (r: String)
    ensures
        r@ == cs@,
{
    cs.iter().collect()
}

/// `s` without its leading white space.
pub open spec fn trim_start(s: Seq<char>) -> Seq<char>
    decreases s.len(),
{
    if s.len() > 0 && is_space(s[0]) {
        trim_start(s.drop_first())
    } else {
        s
    }
}

/// `s` without its trailing white space.
pub open spec fn trim_end(s: Seq<char>) -> Seq<char>
    decreases s.len(),
{
    if s.len() > 0 && is_space(s.last()) {
        trim_end(s.drop_last())
    } else {
        s
    }
}

/// `s` without white space at either end.
pub open spec fn trim(s: Seq<char>) -> Seq<char> {
    trim_end(trim_start(s))
}

/// The pieces of `s` between occurrences of `sep`.
pub open spec fn split(s: Seq<char>, sep: char) -> Seq<Seq<char>>
    decreases s.len(),
{
    if s.len() == 0 {
        seq![Seq::empty()]
    } else {
        let init = split(s.drop_last(), sep);
        if s.last() == sep {
            init.push(Seq::empty())
        } else {
            init.update(init.len() - 1, init.last().push(s.last()))
        }
    }
}

/// The non-empty pieces, each trimmed.
pub open spec fn symbols_of(pieces: Seq<Seq<char>>) -> Seq<Seq<char>>
    decreases pieces.len(),
{
    if pieces.len() == 0 {
        Seq::empty()
    } else if pieces.last().len() == 0 {
        symbols_of(pieces.drop_last())
    } else {
        symbols_of(pieces.drop_last()).push(trim(pieces.last()))
    }
}

/// An arrow `->` starts at `i`.
pub open spec fn arrow_at(s: Seq<char>, i: int) -> bool {
    0 <= i < s.len() - 1 && s[i] == '-' && s[i + 1] == '>'
}

/// The first arrow at or after `from`, or the end of `s`.
pub open spec fn next_arrow(s: Seq<char>, from: int) -> int
    decreases s.len() - from,
{
    if from >= s.len() - 1 {
        s.len() as int
    } else if arrow_at(s, from) {
        from
    } else {
        next_arrow(s, from + 1)
    }
}

/// A rule has an arrow.
pub open spec fn has_arrow(s: Seq<char>) -> bool {
    next_arrow(s, 0) < s.len()
}

/// The left-hand symbol of a rule: the trimmed text before its first arrow.
pub open spec fn rule_lhs(s: Seq<char>) -> Seq<char> {
    trim(s.subrange(0, next_arrow(s, 0)))
}

/// The alternatives of a rule, from the trimmed text between its first
/// arrow and the next one (or the end).
pub open spec fn rule_alternatives(s: Seq<char>) -> Seq<Seq<Seq<char>>> {
    let a = next_arrow(s, 0);
    let b = next_arrow(s, a + 2);
    split(trim(s.subrange(a + 2, b)), '|').map_values(|p: Seq<char>| symbols_of(split(p, ' ')))
}

proof fn lemma_next_arrow_bounds(s: Seq<char>, from: int)
    requires
        0 <= from,
    ensures
        from <= next_arrow(s, from) <= s.len() || (from > s.len() && next_arrow(s, from) == s.len()),
        next_arrow(s, from) < s.len() ==> arrow_at(s, next_arrow(s, from)),
    decreases s.len() - from,
{
    if from < s.len() - 1 && !arrow_at(s, from) {
        lemma_next_arrow_bounds(s, from + 1);
    }
}

/// Where the next arrow at or after `from` starts.
fn find_arrow(cs: &Vec<char>, from: usize) -> (r: usize)
    ensures
        r == next_arrow(cs@, from as int),
{
    let n = cs.len();
    if n == 0 {
        return 0;
    }
    let mut i = from;
    while i < n - 1
        invariant
            from <= i,
            n == cs@.len(),
            n > 0,
            next_arrow(cs@, from as int) == next_arrow(cs@, i as int),
        decreases n - i,
    {
        if cs[i] == '-' && cs[i + 1] == '>' {
            return i;
        }
        i = i + 1;
    }
    n
}

/// The characters of `cs[lo..hi]` without white space at either end.
fn trim_range(cs: &Vec<char>, lo: usize, hi: usize) -> (r: Vec<char>)
    requires
        lo <= hi <= cs@.len(),
    ensures
        r@ == trim(cs@.subrange(lo as int, hi as int)),
{
    let ghost s = cs@.subrange(lo as int, hi as int);
    let mut a = lo;
    while a < hi && crate::vocab::char_is_space(cs[a])
        invariant
            lo <= a <= hi,
            hi <= cs@.len(),
            trim_start(s) == trim_start(cs@.subrange(a as int, hi as int)),
        decreases hi - a,
    {
        assert(cs@.subrange(a as int, hi as int).drop_first() =~= cs@.subrange(a + 1, hi as int));
        a = a + 1;
    }
    assert(trim_start(cs@.subrange(a as int, hi as int)) == cs@.subrange(a as int, hi as int));
    let mut b = hi;
    while b > a && crate::vocab::char_is_space(cs[b - 1])
        invariant
            a <= b <= hi,
            hi <= cs@.len(),
            trim(s) == trim_end(cs@.subrange(a as int, b as int)),
        decreases b - a,
    {
        assert(cs@.subrange(a as int, b as int).drop_last() =~= cs@.subrange(a as int, b - 1));
        b = b - 1;
    }
    let mut r: Vec<char> = Vec::new();
    let mut k = a;
    while k < b
        invariant
            a <= k <= b,
            b <= cs@.len(),
            r@ == cs@.subrange(a as int, k as int),
        decreases b - k,
    {
        r.push(cs[k]);
        k = k + 1;
        assert(r@ =~= cs@.subrange(a as int, k as int));
    }
    r
}

proof fn lemma_split_step(s: Seq<char>, sep: char, i: int)
    requires
        0 <= i < s.len(),
    ensures
        split(s.subrange(0, i + 1), sep) == if s[i] == sep {
            split(s.subrange(0, i), sep).push(Seq::empty())
        } else {
            let init = split(s.subrange(0, i), sep);
            init.update(init.len() - 1, init.last().push(s[i]))
        },
{
    assert(s.subrange(0, i + 1).drop_last() =~= s.subrange(0, i));
}

/// The pieces of `cs` between occurrences of `sep`.
fn split_chars(cs: &Vec<char>, sep: char) -> (r: Vec<Vec<char>>)
    ensures
        pieces_view(r@) == split(cs@, sep),
{
    let mut out: Vec<Vec<char>> = Vec::new();
    out.push(Vec::new());
    let mut i: usize = 0;
    assert(pieces_view(out@) =~~= split(cs@.subrange(0, 0), sep));
    while i < cs.len()
        invariant
            i <= cs@.len(),
            out@.len() >= 1,
            pieces_view(out@) == split(cs@.subrange(0, i as int), sep),
        decreases cs@.len() - i,
    {
        proof {
            lemma_split_step(cs@, sep, i as int);
        }
        if cs[i] == sep {
            let ghost prev = pieces_view(out@);
            out.push(Vec::new());
            assert(pieces_view(out@) =~~= prev.push(Seq::empty()));
        } else {
            let ghost prev = pieces_view(out@);
            let last = out.len() - 1;
            let mut piece = out.remove(last);
            piece.push(cs[i]);
            out.push(piece);
            assert(pieces_view(out@) =~~= prev.update(prev.len() - 1, prev.last().push(cs@[i as int])));
        }
        i = i + 1;
    }
    assert(cs@.subrange(0, i as int) =~= cs@);
    out
}

/// The characters of each piece.
pub open spec fn pieces_view(v: Seq<Vec<char>>) -> Seq<Seq<char>> {
    v.map_values(|p: Vec<char>| p@)
}

/// Copies of the strings.
fn clone_strings(v: &Vec<String>) -> (r: Vec<String>)
    ensures
        r@.map_values(|s: String| s@) == v@.map_values(|s: String| s@),
{
    let mut out: Vec<String> = Vec::new();
    let mut i: usize = 0;
    while i < v.len()
        invariant
            i <= v@.len(),
            out@.map_values(|s: String| s@) =~= v@.subrange(0, i as int).map_values(|s: String| s@),
        decreases v@.len() - i,
    {
        let c = v[i].clone();
        let ghost prev = out@.map_values(|s: String| s@);
        out.push(c);
        assert(out@.map_values(|s: String| s@) =~= prev.push(v@[i as int]@));
        assert(v@.subrange(0, i + 1) =~= v@.subrange(0, i as int).push(v@[i as int]));
        i = i + 1;
    }
    assert(v@.subrange(0, i as int) =~= v@);
    out
}

/// Copies of the alternatives.
fn clone_alternatives(v: &Vec<Vec<String>>) -> (r: Vec<Vec<String>>)
    ensures
        alts_view(r@) == alts_view(v@),
{
    let mut out: Vec<Vec<String>> = Vec::new();
    let mut i: usize = 0;
    while i < v.len()
        invariant
            i <= v@.len(),
            alts_view(out@) =~= alts_view(v@.subrange(0, i as int)),
        decreases v@.len() - i,
    {
        let c = clone_strings(&v[i]);
        let ghost prev = alts_view(out@);
        out.push(c);
        assert(alts_view(out@) =~= prev.push(v@[i as int]@.map_values(|s: String| s@)));
        assert(v@.subrange(0, i + 1) =~= v@.subrange(0, i as int).push(v@[i as int]));
        i = i + 1;
    }
    assert(v@.subrange(0, i as int) =~= v@);
    out
}

/// The non-empty pieces of `pieces`, trimmed, as strings.
fn symbols_in(pieces: &Vec<Vec<char>>) -> (r: Vec<String>)
    ensures
        r@.map_values(|s: String| s@) == symbols_of(pieces_view(pieces@)),
{
    let mut out: Vec<String> = Vec::new();
    let mut i: usize = 0;
    while i < pieces.len()
        invariant
            i <= pieces@.len(),
            out@.map_values(|s: String| s@) == symbols_of(pieces_view(pieces@).subrange(0, i as int)),
        decreases pieces@.len() - i,
    {
        let ghost p = pieces_view(pieces@);
        assert(p.subrange(0, i + 1).drop_last() =~= p.subrange(0, i as int));
        assert(p.subrange(0, i + 1).last() == p[i as int]);
        assert(p[i as int] == pieces@[i as int]@);
        if pieces[i].len() > 0 {
            let t = trim_range(&pieces[i], 0, pieces[i].len());
            assert(pieces@[i as int]@.subrange(0, pieces@[i as int]@.len() as int) =~= pieces@[i as int]@);
            let ghost prev = out@.map_values(|s: String| s@);
            out.push(string_of(t.as_slice()));
            assert(out@.map_values(|s: String| s@) =~= prev.push(trim(p[i as int])));
        }
        i = i + 1;
    }
    assert(pieces_view(pieces@).subrange(0, i as int) =~= pieces_view(pieces@));
    out
}

/// The left-hand symbol and the alternatives of a rule.
pub fn string_to_rule(rule: &str) -> (r: (String, Vec<Vec<String>>))
    requires
        has_arrow(rule@),
    ensures
        r.0@ == rule_lhs(rule@),
        r.1@.map_values(|a: Vec<String>| a@.map_values(|s: String| s@)) == rule_alternatives(rule@),
{
    let cs = chars_of(rule);
    let n = cs.len();
    let a = find_arrow(&cs, 0);
    proof {
        lemma_next_arrow_bounds(cs@, 0);
        lemma_next_arrow_bounds(cs@, a + 2);
    }
    let b = find_arrow(&cs, a + 2);
    let lhs = trim_range(&cs, 0, a);
    let rhs = trim_range(&cs, a + 2, b);
    let parts = split_chars(&rhs, '|');
    let ghost ps = pieces_view(parts@);
    let mut alternatives: Vec<Vec<String>> = Vec::new();
    let mut i: usize = 0;
    while i < parts.len()
        invariant
            i <= parts@.len(),
            ps == pieces_view(parts@),
            alternatives@.map_values(|a: Vec<String>| a@.map_values(|s: String| s@)) =~= ps.subrange(
                0,
                i as int,
            ).map_values(|p: Seq<char>| symbols_of(split(p, ' '))),
        decreases parts@.len() - i,
    {
        let words = split_chars(&parts[i], ' ');
        let syms = symbols_in(&words);
        assert(parts@[i as int]@ == ps[i as int]);
        let ghost prev = alternatives@.map_values(|a: Vec<String>| a@.map_values(|s: String| s@));
        alternatives.push(syms);
        assert(ps.subrange(0, i + 1) =~= ps.subrange(0, i as int).push(ps[i as int]));
        assert(alternatives@.map_values(|a: Vec<String>| a@.map_values(|s: String| s@)) =~= prev.push(
            symbols_of(split(ps[i as int], ' ')),
        ));
        i = i + 1;
    }
    assert(ps.subrange(0, i as int) =~= ps);
    let name = string_of(lhs.as_slice());
    (name, alternatives)
}

/// The alternatives of a symbol, as a set of symbol lists.
pub open spec fn alternative_set(alts: Seq<Seq<Seq<char>>>) -> Set<Seq<Seq<char>>> {
    alts.to_set()
}

/// Rules by left-hand symbol; each symbol has at most one entry.
pub struct Grammar {
    lexicon: Vec<(String, Vec<Vec<String>>)>,
}

/// The view of a list of alternatives.
pub open spec fn alts_view(a: Seq<Vec<String>>) -> Seq<Seq<Seq<char>>> {
    a.map_values(|x: Vec<String>| x@.map_values(|s: String| s@))
}

impl Grammar {
    /// The alternatives of `lhs`, if it has a rule.
    pub closed spec fn rules(&self, lhs: Seq<char>) -> Option<Set<Seq<Seq<char>>>> {
        if exists|i: int| 0 <= i < self.lexicon@.len() && #[trigger] self.lexicon@[i].0@ == lhs {
            let i = choose|i: int| 0 <= i < self.lexicon@.len() && #[trigger] self.lexicon@[i].0@ == lhs;
            Some(alternative_set(alts_view(self.lexicon@[i].1@)))
        } else {
            None
        }
    }

    /// Each left-hand symbol has one entry.
    pub closed spec fn wf(&self) -> bool {
        forall|i: int, j: int|
            0 <= i < j < self.lexicon@.len() ==> #[trigger] self.lexicon@[i].0@ != #[trigger] self.lexicon@[j].0@
    }

    /// A grammar without rules.
    pub fn new() -> (r: Grammar)
        ensures
            r.wf(),
            forall|lhs: Seq<char>| r.rules(lhs).is_none(),
    {
        Grammar { lexicon: Vec::new() }
    }

    /// Where `lhs` stands in the lexicon.
    fn position(&self, lhs: &String) -> (r: Option<usize>)
        requires
            self.wf(),
        ensures
            match r {
                Some(i) => i < self.lexicon@.len() && self.lexicon@[i as int].0@ == lhs@,
                None => forall|i: int| 0 <= i < self.lexicon@.len() ==> #[trigger] self.lexicon@[i].0@ != lhs@,
            },
    {
        let mut i: usize = 0;
        while i < self.lexicon.len()
            invariant
                i <= self.lexicon@.len(),
                forall|j: int| 0 <= j < i ==> #[trigger] self.lexicon@[j].0@ != lhs@,
            decreases self.lexicon@.len() - i,
        {
            if self.lexicon[i].0 == *lhs {
                return Some(i);
            }
            i = i + 1;
        }
        None
    }

    /// Adds a rule: its alternatives join those that its left-hand symbol
    /// already had. Gives the symbol, the alternatives it had before and
    /// those it has now.
    pub fn add(&mut self, rule: &str) -> (r: (String, Vec<Vec<String>>, Vec<Vec<String>>))
        requires
            old(self).wf(),
            has_arrow(rule@),
        ensures
            final(self).wf(),
            r.0@ == rule_lhs(rule@),
            alternative_set(alts_view(r.1@)) == match old(self).rules(r.0@) {
                Some(s) => s,
                None => Set::empty(),
            },
            alternative_set(alts_view(r.2@)) == alternative_set(rule_alternatives(rule@)).union(
                alternative_set(alts_view(r.1@)),
            ),
            final(self).rules(r.0@) == Some(alternative_set(alts_view(r.2@))),
            forall|other: Seq<char>| other != r.0@ ==> final(self).rules(other) == old(self).rules(other),
    {
        let (key, alternatives) = string_to_rule(rule);
        let ghost parsed = alts_view(alternatives@);
        let ghost old_lex = self.lexicon@;
        let mut set = alternatives;
        match self.position(&key) {
            Some(i) => {
                let previous = clone_alternatives(&self.lexicon[i].1);
                let mut k: usize = 0;
                while k < previous.len()
                    invariant
                        k <= previous@.len(),
                        alts_view(set@) =~= parsed + alts_view(previous@).subrange(0, k as int),
                    decreases previous@.len() - k,
                {
                    let c = clone_strings(&previous[k]);
                    let ghost prev = alts_view(set@);
                    set.push(c);
                    assert(alts_view(set@) =~= prev.push(alts_view(previous@)[k as int]));
                    assert(alts_view(previous@).subrange(0, k + 1) =~= alts_view(previous@).subrange(
                        0,
                        k as int,
                    ).push(alts_view(previous@)[k as int]));
                    k = k + 1;
                }
                let stored = clone_alternatives(&set);
                let name = key.clone();
                self.lexicon.set(i, (name, stored));
                proof {
                    assert(alts_view(previous@).subrange(0, k as int) =~= alts_view(previous@));
                    vstd::seq_lib::seq_to_set_distributes_over_add(parsed, alts_view(previous@));
                    assert(self.lexicon@[i as int].0@ == key@);
                    assert forall|x: int, y: int|
                        0 <= x < y < self.lexicon@.len() implies #[trigger] self.lexicon@[x].0@
                        != #[trigger] self.lexicon@[y].0@ by {
                        assert(old_lex[x].0@ != old_lex[y].0@);
                    }
                    let c = choose|c: int| 0 <= c < self.lexicon@.len() && #[trigger] self.lexicon@[c].0@ == key@;
                    assert(c == i);
                    let c0 = choose|c: int| 0 <= c < old_lex.len() && #[trigger] old_lex[c].0@ == key@;
                    assert(c0 == i);
                    assert forall|other: Seq<char>| other != key@ implies self.rules(other) == old(self).rules(other) by {
                        assert forall|x: int| 0 <= x < self.lexicon@.len() implies (#[trigger] self.lexicon@[x].0@ == other) == (old_lex[x].0@ == other) by {
                            if x != i {
                                assert(self.lexicon@[x] == old_lex[x]);
                            }
                        }
                        if exists|x: int| 0 <= x < self.lexicon@.len() && #[trigger] self.lexicon@[x].0@ == other {
                            let x = choose|x: int| 0 <= x < self.lexicon@.len() && #[trigger] self.lexicon@[x].0@ == other;
                            assert(x != i);
                            assert(old_lex[x].0@ == other);
                            let y = choose|y: int| 0 <= y < old_lex.len() && #[trigger] old_lex[y].0@ == other;
                            assert(self.lexicon@[y].0@ == other);
                        } else {
                            assert forall|y: int| 0 <= y < old_lex.len() implies #[trigger] old_lex[y].0@ != other by {
                                assert(self.lexicon@[y].0@ != other);
                            }
                        }
                    }
                }
                (key, previous, set)
            },
            None => {
                let stored = clone_alternatives(&set);
                let name = key.clone();
                self.lexicon.push((name, stored));
                proof {
                    assert(parsed + Seq::<Seq<Seq<char>>>::empty() =~= parsed);
                    assert(Seq::<Seq<Seq<char>>>::empty().to_set() =~= Set::empty());
                    assert(parsed.to_set().union(Set::empty()) =~= parsed.to_set());
                    let n = old_lex.len() as int;
                    assert(self.lexicon@[n].0@ == key@);
                    assert forall|x: int, y: int|
                        0 <= x < y < self.lexicon@.len() implies #[trigger] self.lexicon@[x].0@
                        != #[trigger] self.lexicon@[y].0@ by {
                        if y < n {
                            assert(old_lex[x].0@ != old_lex[y].0@);
                        } else {
                            assert(self.lexicon@[x] == old_lex[x]);
                        }
                    }
                    let c = choose|c: int| 0 <= c < self.lexicon@.len() && #[trigger] self.lexicon@[c].0@ == key@;
                    assert(c == n);
                    assert forall|other: Seq<char>| other != key@ implies self.rules(other) == old(self).rules(other) by {
                        if exists|x: int| 0 <= x < self.lexicon@.len() && #[trigger] self.lexicon@[x].0@ == other {
                            let x = choose|x: int| 0 <= x < self.lexicon@.len() && #[trigger] self.lexicon@[x].0@ == other;
                            assert(x != n);
                            assert(self.lexicon@[x] == old_lex[x]);
                            let y = choose|y: int| 0 <= y < old_lex.len() && #[trigger] old_lex[y].0@ == other;
                            assert(self.lexicon@[y] == old_lex[y]);
                            if x != y {
                                if x < y {
                                    assert(self.lexicon@[x].0@ != self.lexicon@[y].0@);
                                } else {
                                    assert(self.lexicon@[y].0@ != self.lexicon@[x].0@);
                                }
                            }
                        } else {
                            assert forall|y: int| 0 <= y < old_lex.len() implies #[trigger] old_lex[y].0@ != other by {
                                assert(self.lexicon@[y] == old_lex[y]);
                            }
                        }
                    }
                }
                let none: Vec<Vec<String>> = Vec::new();
                assert(alts_view(none@) =~= Seq::empty());
                (key, none, set)
            },
        }
    }

    /// The alternatives of `root`, if it has a rule.
    pub fn rhs(&self, root: &str) -> (r: Option<&Vec<Vec<String>>>)
        requires
            self.wf(),
        ensures
            match r {
                Some(a) => self.rules(root@) == Some(alternative_set(alts_view(a@))),
                None => self.rules(root@).is_none(),
            },
    {
        let key = string_of(chars_of(root).as_slice());
        match self.position(&key) {
            Some(i) => Some(&self.lexicon[i].1),
            None => None,
        }
    }
}

/// A chart state. So far it records only whether it is complete and
/// whether its last step changed the chart; both start false.
#[derive(Debug, Clone, Copy, PartialEq, Eq, Structural)]
pub struct State {
    pub complete: bool,
    pub changed: bool,
}

impl State {
    /// A fresh state for the rule `lhs -> rhs` with its dot at `dot`,
    /// spanning `left..right`.
    pub fn new(lhs: &str, rhs: Vec<String>, dot: usize, left: usize, right: usize) -> (r: State)
        ensures
            r == (State { complete: false, changed: false }),
    {
        State { complete: false, changed: false }
    }

    /// Whether the symbol after the dot is a non-terminal; no state
    /// reports one yet.
    pub fn non_terminal(&self, grammar: &Grammar) -> (r: bool)
        ensures
            r == false,
    {
        false
    }

    /// The prediction step; it adds nothing yet.
    pub fn predict(&self, grammar: &Grammar, chart: &Chart) -> (r: Option<Chart>)
        ensures
            r.is_none(),
    {
        None
    }

    /// The scanning step over `token`; it adds nothing yet.
    pub fn scan(&self, grammar: &Grammar, chart: &Chart, token: &str) -> (r: Option<Chart>)
        ensures
            r.is_none(),
    {
        None
    }

    /// The completion step; it adds nothing yet.
    pub fn complete(&self, grammar: &Grammar, chart: &Chart) -> (r: Option<Chart>)
        ensures
            r.is_none(),
    {
        None
    }
}

/// The chart of an Earley recognizer over a token list. It holds no
/// columns yet: it counts no states and accepts none.
#[derive(Debug)]
pub struct Chart {}

impl Chart {
    /// A chart for `tokens`.
    pub fn new(tokens: &Vec<String>) -> (r: Chart) {
        Chart {}
    }

    /// Offers `state` at column `index`; gives the index, the state as it
    /// was, and the state as it is now.
    pub fn add(&self, index: isize, state: State) -> (r: (isize, State, State))
        ensures
            r == (index, state, state),
    {
        let before = state;
        (index, before, state)
    }

    /// The number of states in column `index`.
    pub fn count(&self, index: usize) -> (r: i32)
        ensures
            r == 0,
    {
        0
    }

    /// Appends `state`; reports whether the chart changed.
    pub fn append(&self, state: State) -> (r: bool)
        ensures
            r == false,
    {
        false
    }

    /// The state at `index`: the start state of `S`.
    pub fn get(&self, index: usize) -> (r: State)
        ensures
            r == (State { complete: false, changed: false }),
    {
        State::new("S", Vec::new(), 0, 0, 0)
    }
}

} // verus!
