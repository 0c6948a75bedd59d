use crate::bow::{lex_lt, str_lt};
use crate::chars::{lemma_push_contains, texts};
use fnv::{FnvHashMap, FnvHashSet};
use vstd::prelude::*;

verus! {

/// `fnv::FnvHasher`: the hasher of the sets and maps below. Nothing is
/// claimed of it.
#[verifier::external_type_specification]
#[verifier::external_body]
pub struct ExFnvHasher(fnv::FnvHasher);

/// `core::hash::BuildHasherDefault`: makes the hashers of the sets and maps
/// below. Nothing is claimed of it.
#[verifier::external_type_specification]
#[verifier::external_body]
#[verifier::reject_recursive_types(H)]
pub struct ExBuildHasherDefault<H>(core::hash::BuildHasherDefault<H>);

/// `fst::Map`: a map from byte strings to numbers, here the term weights.
/// What one holds is named by `term_weights`.
#[verifier::external_type_specification]
#[verifier::external_body]
#[verifier::reject_recursive_types(D)]
pub struct ExFstMap<D>(fst::Map<D>);

/// `fst::Set`: a set of byte strings, here the toponyms. What one holds is
/// named by `toponym_set`.
#[verifier::external_type_specification]
#[verifier::external_body]
#[verifier::reject_recursive_types(D)]
pub struct ExFstSet<D>(fst::Set<D>);

/// Weight of a word that the term-weight map does not hold. It stands in for
/// a weight that was never measured: any other value changes the ranking.
pub const MISS_WORD_REL: u64 = 6666;

/// The words that a set holds.
pub uninterp spec fn word_set(s: FnvHashSet<String>) -> Set<Seq<char>>;

/// The pairs of word and alternate that a dictionary holds.
pub uninterp spec fn dict_map(d: FnvHashMap<String, String>) -> Map<Seq<char>, Seq<char>>;

/// The alternates that an overlay holds, by token index.
pub uninterp spec fn overlay_map(m: FnvHashMap<usize, String>) -> Map<usize, Seq<char>>;

/// The token indices that a map holds, by n-gram key.
pub uninterp spec fn ids_map(m: FnvHashMap<String, Vec<usize>>) -> Map<Seq<char>, Seq<usize>>;

/// The weights that a map holds, by word.
pub uninterp spec fn weight_map(m: FnvHashMap<String, u128>) -> Map<Seq<char>, u128>;

/// The indices that a set holds.
pub uninterp spec fn index_set(s: FnvHashSet<usize>) -> Set<usize>;

/// The weight that a term-weight map gives to each word it holds: a word is
/// held under the bytes of its UTF-8 encoding.
pub uninterp spec fn term_weights(m: fst::Map<Vec<u8>>) -> Map<Seq<char>, u64>;

/// The words that a toponym set holds, each under the bytes of its UTF-8
/// encoding.
pub uninterp spec fn toponym_set(s: fst::Set<Vec<u8>>) -> Set<Seq<char>>;

/// Whether the map was made by the builder of its crate, so that every
/// lookup in it walks a well-formed transducer.
pub uninterp spec fn map_is_built(m: fst::Map<Vec<u8>>) -> bool;

/// Whether the set was made by the builder of its crate, so that every
/// lookup in it walks a well-formed transducer.
pub uninterp spec fn set_is_built(s: fst::Set<Vec<u8>>) -> bool;

/// The map holds the listed pairs and nothing else.
pub open spec fn holds_pairs(m: Map<Seq<char>, u64>, items: Seq<(String, u64)>) -> bool {
    &&& forall|i: int|
        0 <= i < items.len() ==> m.contains_key(#[trigger] items[i].0@) && m[items[i].0@]
            == items[i].1
    &&& forall|w: Seq<char>|
        m.contains_key(w) ==> exists|i: int| 0 <= i < items.len() && #[trigger] items[i].0@ == w
}

/// The set holds the listed words and nothing else.
pub open spec fn holds_words(s: Set<Seq<char>>, items: Seq<String>) -> bool {
    forall|w: Seq<char>| s.contains(w) <==> texts(items).contains(w)
}

/// Each word sorts behind the word before it.
pub open spec fn rising_keys(items: Seq<(String, u64)>) -> bool {
    forall|i: int| 0 < i < items.len() ==> lex_lt(items[i - 1].0@, #[trigger] items[i].0@)
}

/// No word sorts before the word before it.
pub open spec fn rising_words(items: Seq<String>) -> bool {
    forall|i: int| 0 < i < items.len() ==> !lex_lt(#[trigger] items[i]@, items[i - 1]@)
}

/// The term weights of an index: a map from words to weights that is always
/// one that its builder made.
pub struct TermWeights {
    map: fst::Map<Vec<u8>>,
}

impl View for TermWeights {
    type V = Map<Seq<char>, u64>;

    closed spec fn view(&self) -> Map<Seq<char>, u64> {
        term_weights(self.map)
    }
}

impl TermWeights {
    #[verifier::type_invariant]
    spec fn built(self) -> bool {
        map_is_built(self.map)
    }

    /// The term weights that hold the given pairs of word and weight, where
    /// the words come in rising byte order, each once; none for any other
    /// list.
    pub fn from_sorted(items: &Vec<(String, u64)>) -> (r: Option<Self>)
        ensures
            r is Some <==> rising_keys(items@),
            r matches Some(t) ==> holds_pairs(t@, items@),
    {
        let mut i: usize = 1;
        while i < items.len()
            invariant
                1 <= i,
                forall|q: int| 0 < q < i && q < items.len() ==> lex_lt(
                    items@[q - 1].0@,
                    #[trigger] items@[q].0@,
                ),
            decreases items.len() - i,
        {
            if !str_lt(items[i - 1].0.as_str(), items[i].0.as_str()) {
                return None;
            }
            i += 1;
        }
        match build_map(items) {
            Some(map) => Some(TermWeights { map: map }),
            None => None,
        }
    }

    /// The weight of a word, if the map holds it.
    pub fn get(&self, w: &str) -> (r: Option<u64>)
        ensures
            r == (if self@.contains_key(w@) {
                Some(self@[w@])
            } else {
                None
            }),
    {
        proof {
            use_type_invariant(self);
        }
        weight_of(&self.map, w)
    }
}

/// The toponyms of an index: a set of words that is always one that its
/// builder made.
pub struct Toponyms {
    set: fst::Set<Vec<u8>>,
}

impl View for Toponyms {
    type V = Set<Seq<char>>;

    closed spec fn view(&self) -> Set<Seq<char>> {
        toponym_set(self.set)
    }
}

impl Toponyms {
    #[verifier::type_invariant]
    spec fn built(self) -> bool {
        set_is_built(self.set)
    }

    /// The toponyms that are the given words, where the words come in rising
    /// byte order; none for any other list.
    pub fn from_sorted(items: &Vec<String>) -> (r: Option<Self>)
        ensures
            r is Some <==> rising_words(items@),
            r matches Some(t) ==> holds_words(t@, items@),
    {
        let mut i: usize = 1;
        while i < items.len()
            invariant
                1 <= i,
                forall|q: int| 0 < q < i && q < items.len() ==> !lex_lt(
                    #[trigger] items@[q]@,
                    items@[q - 1]@,
                ),
            decreases items.len() - i,
        {
            if str_lt(items[i].as_str(), items[i - 1].as_str()) {
                return None;
            }
            i += 1;
        }
        match build_set(items) {
            Some(set) => Some(Toponyms { set: set }),
            None => None,
        }
    }

    /// Whether the set holds the word.
    pub fn contains(&self, w: &str) -> (r: bool)
        ensures
            r == self@.contains(w@),
    {
        proof {
            use_type_invariant(self);
        }
        is_toponym(&self.set, w)
    }
}

/// The dictionary's contents, where there is one.
pub open spec fn opt_dict(d: Option<FnvHashMap<String, String>>) -> Option<
    Map<Seq<char>, Seq<char>>,
> {
    match d {
        Some(m) => Some(dict_map(m)),
        None => None,
    }
}

/// The toponym set's contents, where there is one.
pub open spec fn opt_toponyms(t: Option<Toponyms>) -> Option<Set<Seq<char>>> {
    match t {
        Some(s) => Some(s@),
        None => None,
    }
}

/// A listing of a dictionary: every pair once, keys distinct.
pub open spec fn lists_dict(pairs: Seq<(String, String)>, d: Map<Seq<char>, Seq<char>>) -> bool {
    &&& forall|i: int|
        0 <= i < pairs.len() ==> d.contains_key(#[trigger] pairs[i].0@) && d[pairs[i].0@]
            == pairs[i].1@
    &&& forall|k: Seq<char>|
        d.contains_key(k) ==> exists|i: int| 0 <= i < pairs.len() && #[trigger] pairs[i].0@ == k
    &&& forall|i: int, j: int|
        0 <= i < j < pairs.len() ==> #[trigger] pairs[i].0@ != #[trigger] pairs[j].0@
}

/// A listing of a word set: every word once.
pub open spec fn lists_set(words: Seq<String>, s: Set<Seq<char>>) -> bool {
    &&& texts(words).to_set() == s
    &&& texts(words).no_duplicates()
}

/// `HashSet::contains` on a set of words: whether the set holds the word.
#[verifier::external_body]
pub(crate) fn set_contains(s: &FnvHashSet<String>, w: &str) -> (r: bool)
    ensures
        r == word_set(*s).contains(w@),
{
    s.contains(w)
}

/// `HashSet::iter` on a set of words: each word of the set once, in an order
/// that is not fixed.
#[verifier::external_body]
pub(crate) fn set_words(s: &FnvHashSet<String>) -> (r: Vec<String>)
    ensures
        lists_set(r@, word_set(*s)),
{
    s.iter().cloned().collect()
}

/// `HashMap::get` on a dictionary: the alternate stored for a word, if any.
#[verifier::external_body]
pub(crate) fn dict_get(d: &FnvHashMap<String, String>, w: &str) -> (r: Option<String>)
    ensures
        match r {
            Some(v) => dict_map(*d).contains_key(w@) && dict_map(*d)[w@] == v@,
            None => !dict_map(*d).contains_key(w@),
        },
{
    d.get(w).cloned()
}

/// `HashMap::iter` on a dictionary: each pair of the dictionary once, in an
/// order that is not fixed.
#[verifier::external_body]
pub(crate) fn dict_pairs(d: &FnvHashMap<String, String>) -> (r: Vec<(String, String)>)
    ensures
        lists_dict(r@, dict_map(*d)),
{
    d.iter().map(|(k, v)| (k.clone(), v.clone())).collect()
}

/// `FnvHashMap::default`: an overlay without entries.
#[verifier::external_body]
pub(crate) fn overlay_new() -> (r: FnvHashMap<usize, String>)
    ensures
        overlay_map(r).dom() == Set::<usize>::empty(),
{
    FnvHashMap::default()
}

/// `HashMap::get` on an overlay: the alternate stored for a token index, if any.
#[verifier::external_body]
pub(crate) fn overlay_get(m: &FnvHashMap<usize, String>, i: usize) -> (r: Option<String>)
    ensures
        match r {
            Some(v) => overlay_map(*m).contains_key(i) && overlay_map(*m)[i] == v@,
            None => !overlay_map(*m).contains_key(i),
        },
{
    m.get(&i).cloned()
}

/// `HashMap::insert` on an overlay: the entry for the index is set, the others stay.
#[verifier::external_body]
pub(crate) fn overlay_insert(m: &mut FnvHashMap<usize, String>, i: usize, alt: String)
    ensures
        overlay_map(*final(m)) == overlay_map(*old(m)).insert(i, alt@),
{
    m.insert(i, alt);
}

/// `fst::Map::from_iter`: builds a map in memory from pairs of key and
/// value. The builder refuses only a key that does not sort behind the key
/// before it, and writing to memory does not fail: so it gives a map for
/// keys in rising order. Where it gives a map, the map is one that the
/// builder made, and it holds the given pairs and nothing else.
#[verifier::external_body]
pub(crate) fn build_map(items: &Vec<(String, u64)>) -> (r: Option<fst::Map<Vec<u8>>>)
    ensures
        rising_keys(items@) ==> r is Some,
        r matches Some(m) ==> map_is_built(m) && holds_pairs(term_weights(m), items@),
{
    fst::Map::from_iter(items.iter().map(|(k, v)| (k.as_str(), *v))).ok()
}

/// `fst::Set::from_iter`: builds a set in memory from keys. The builder
/// refuses only a key that sorts before the key before it, and writing to
/// memory does not fail: so it gives a set for keys in rising order. Where it
/// gives a set, the set is one that the builder made, and it holds the given
/// words and nothing else.
#[verifier::external_body]
pub(crate) fn build_set(items: &Vec<String>) -> (r: Option<fst::Set<Vec<u8>>>)
    ensures
        rising_words(items@) ==> r is Some,
        r matches Some(s) ==> set_is_built(s) && holds_words(toponym_set(s), items@),
{
    fst::Set::from_iter(items.iter().map(|k| k.as_str())).ok()
}

/// `fst::Map::get` on a map that its builder made: the value stored under
/// the word's bytes, if any. A map of other bytes is left out: a lookup in
/// it may not return.
#[verifier::external_body]
pub(crate) fn weight_of(m: &fst::Map<Vec<u8>>, w: &str) -> (r: Option<u64>)
    requires
        map_is_built(*m),
    ensures
        r == (if term_weights(*m).contains_key(w@) {
            Some(term_weights(*m)[w@])
        } else {
            None
        }),
{
    m.get(w)
}

/// `fst::Set::contains` on a set that its builder made: whether the set
/// holds the word's bytes. A set of other bytes is left out: a lookup in it
/// may not return.
#[verifier::external_body]
pub(crate) fn is_toponym(s: &fst::Set<Vec<u8>>, w: &str) -> (r: bool)
    requires
        set_is_built(*s),
    ensures
        r == toponym_set(*s).contains(w@),
{
    s.contains(w)
}

/// `FnvHashMap::default`: a map from keys to token indices without entries.
#[verifier::external_body]
pub(crate) fn ids_new() -> (r: FnvHashMap<String, Vec<usize>>)
    ensures
        ids_map(r).dom() == Set::<Seq<char>>::empty(),
{
    FnvHashMap::default()
}

/// `HashMap::contains_key` on a map from keys to token indices: whether the
/// map has an entry for the key.
#[verifier::external_body]
pub(crate) fn ids_contains_key(m: &FnvHashMap<String, Vec<usize>>, key: &str) -> (r: bool)
    ensures
        r == ids_map(*m).contains_key(key@),
{
    m.contains_key(key)
}

/// `HashMap::insert` on a map from keys to token indices: the entry for the
/// key is set, the others stay.
#[verifier::external_body]
pub(crate) fn ids_insert(m: &mut FnvHashMap<String, Vec<usize>>, key: String, ids: Vec<usize>)
    ensures
        ids_map(*final(m)) == ids_map(*old(m)).insert(key@, ids@),
{
    m.insert(key, ids);
}

/// `FnvHashMap::default`: a map from words to weights without entries.
#[verifier::external_body]
pub(crate) fn weights_new() -> (r: FnvHashMap<String, u128>)
    ensures
        weight_map(r).dom() == Set::<Seq<char>>::empty(),
{
    FnvHashMap::default()
}

/// `HashMap::insert` on a map from words to weights: the entry for the word
/// is set, the others stay.
#[verifier::external_body]
pub(crate) fn weights_insert(m: &mut FnvHashMap<String, u128>, word: String, weight: u128)
    ensures
        weight_map(*final(m)) == weight_map(*old(m)).insert(word@, weight),
{
    m.insert(word, weight);
}

/// `FnvHashSet::default`: a set of indices without members.
#[verifier::external_body]
pub(crate) fn index_set_new() -> (r: FnvHashSet<usize>)
    ensures
        index_set(r) == Set::<usize>::empty(),
{
    FnvHashSet::default()
}

/// `HashSet::insert` on a set of indices: the index is a member, the others
/// stay.
#[verifier::external_body]
pub(crate) fn index_set_insert(s: &mut FnvHashSet<usize>, x: usize)
    ensures
        index_set(*final(s)) == index_set(*old(s)).insert(x),
{
    s.insert(x);
}

/// `HashSet::contains` on a set of indices: whether the index is a member.
#[verifier::external_body]
pub(crate) fn index_set_contains(s: &FnvHashSet<usize>, x: usize) -> (r: bool)
    ensures
        r == index_set(*s).contains(x),
{
    s.contains(&x)
}

/// `FnvHashSet::default`: a set of words without members.
#[verifier::external_body]
pub(crate) fn set_new() -> (r: FnvHashSet<String>)
    ensures
        word_set(r) == Set::<Seq<char>>::empty(),
{
    FnvHashSet::default()
}

/// `HashSet::insert` on a set of words: the word is a member, the others
/// stay.
#[verifier::external_body]
pub(crate) fn set_insert(s: &mut FnvHashSet<String>, w: String)
    ensures
        word_set(*final(s)) == word_set(*old(s)).insert(w@),
{
    s.insert(w);
}

/// `HashSet::remove` on a set of words: the word is no member, the others
/// stay.
#[verifier::external_body]
pub(crate) fn set_remove(s: &mut FnvHashSet<String>, w: &str)
    ensures
        word_set(*final(s)) == word_set(*old(s)).remove(w@),
{
    s.remove(w);
}

/// `HashSet::iter` on a set of indices: each index of the set once, in an
/// order that is not fixed.
#[verifier::external_body]
pub(crate) fn index_set_list(s: &FnvHashSet<usize>) -> (r: Vec<usize>)
    ensures
        r@.to_set() == index_set(*s),
        r@.no_duplicates(),
{
    s.iter().cloned().collect()
}

/// The set of the given indices.
pub fn index_set_of(v: &Vec<usize>) -> (r: FnvHashSet<usize>)
    ensures
        index_set(r) == v@.to_set(),
{
    let mut r = index_set_new();
    let mut n: usize = 0;
    assert(index_set(r) =~= v@.take(0).to_set());
    while n < v.len()
        invariant
            n <= v.len(),
            index_set(r) == v@.take(n as int).to_set(),
        decreases v.len() - n,
    {
        index_set_insert(&mut r, v[n]);
        proof {
            assert(v@.take(n + 1) =~= v@.take(n as int).push(v@[n as int]));
            assert forall|x: usize|
                v@.take(n as int).to_set().insert(v@[n as int]).contains(x) <==> v@.take(
                    n + 1,
                ).to_set().contains(x) by {
                lemma_push_contains(v@.take(n as int), v@[n as int], x);
            }
            assert(index_set(r) =~= v@.take(n + 1).to_set());
        }
        n += 1;
    }
    assert(v@.take(v.len() as int) =~= v@);
    r
}

} // verus!
