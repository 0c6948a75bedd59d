use crate::chars::{byte_len, contains_number, has_number, lemma_push_contains, texts};
use crate::lookup::{
    dict_get, index_set, index_set_insert, index_set_new, opt_dict, opt_toponyms, overlay_get,
    overlay_map, set_contains, set_insert, set_new, word_set, TermWeights, Toponyms,
    MISS_WORD_REL,
};
use crate::model::{MAX_NORM, MAX_WEIGHT, WORDS_PER_QUERY};
use crate::stopgrams::{indices_within, weights_within};
use fnv::{FnvHashMap, FnvHashSet};
use vstd::prelude::*;

verus! {

/// What is known of the tokens of a query, as a value.
pub struct Classes {
    /// The indices of the tokens that are no stop words, rising.
    pub word_idx: Seq<usize>,
    /// The indices of the stop words, rising.
    pub stop_idx: Seq<usize>,
    /// The weight of each token, as a numerator over `norm`.
    pub rels: Seq<u128>,
    /// The denominator of the weights.
    pub norm: int,
    /// The seed of the must-haves: the heaviest token with a number, then the
    /// heaviest toponym.
    pub must_have: Seq<usize>,
    /// The indices of the tokens that are no stop words and hold a number.
    pub numerics: Set<usize>,
}

/// The weight that the map gives a word; 6666 for one it does not hold.
pub open spec fn raw_weight(tw: Map<Seq<char>, u64>, w: Seq<char>) -> int {
    if tw.contains_key(w) {
        tw[w] as int
    } else {
        MISS_WORD_REL as int
    }
}

/// A stop word is a word of the stop-word set or a word of a single byte.
pub open spec fn is_stop(stops: Set<Seq<char>>, w: Seq<char>) -> bool {
    stops.contains(w) || byte_len(w) == 1
}

/// Twice the weight of the token at `i` before the weights are normed: a stop
/// word weighs half of what the map gives it; another token weighs what the
/// map gives it or, if that is more, what the map gives its alternate.
pub open spec fn half_weight(
    tokens: Seq<Seq<char>>,
    tw: Map<Seq<char>, u64>,
    stops: Set<Seq<char>>,
    ov: Map<usize, Seq<char>>,
    i: int,
) -> int {
    let base = raw_weight(tw, tokens[i]);
    if is_stop(stops, tokens[i]) {
        base
    } else if ov.contains_key(i as usize) && raw_weight(tw, ov[i as usize]) > base {
        2 * raw_weight(tw, ov[i as usize])
    } else {
        2 * base
    }
}

/// What the token at `i` adds to the sum of the weights: a stop word always
/// its weight, another token its weight where it occurs for the first time.
pub open spec fn counted(
    tokens: Seq<Seq<char>>,
    tw: Map<Seq<char>, u64>,
    stops: Set<Seq<char>>,
    ov: Map<usize, Seq<char>>,
    i: int,
) -> int {
    if is_stop(stops, tokens[i]) || !tokens.take(i).contains(tokens[i]) {
        half_weight(tokens, tw, stops, ov, i)
    } else {
        0
    }
}

/// The sum of what the first `n` tokens add to the sum of the weights.
pub open spec fn total_upto(
    tokens: Seq<Seq<char>>,
    tw: Map<Seq<char>, u64>,
    stops: Set<Seq<char>>,
    ov: Map<usize, Seq<char>>,
    n: int,
) -> int
    decreases n,
{
    if n <= 0 {
        0
    } else {
        total_upto(tokens, tw, stops, ov, n - 1) + counted(tokens, tw, stops, ov, n - 1)
    }
}

/// A word is a place when the toponym set holds it or the alternate that the
/// dictionary gives for it.
pub open spec fn is_place(
    topo: Option<Set<Seq<char>>>,
    dict: Option<Map<Seq<char>, Seq<char>>>,
    w: Seq<char>,
) -> bool {
    match topo {
        Some(ts) => ts.contains(w) || match dict {
            Some(d) => d.contains_key(w) && ts.contains(d[w]),
            None => false,
        },
        None => false,
    }
}

/// The positions whose flag is set.
pub open spec fn flagged(flags: Seq<bool>) -> Set<usize> {
    Set::new(|x: usize| x < flags.len() && flags[x as int])
}

/// The positions among the first `n` flags that have the given value, rising.
pub open spec fn positions(flags: Seq<bool>, val: bool, n: int) -> Seq<usize>
    decreases n,
{
    if n <= 0 {
        Seq::empty()
    } else if flags[n - 1] == val {
        positions(flags, val, n - 1).push((n - 1) as usize)
    } else {
        positions(flags, val, n - 1)
    }
}

/// The first heaviest among the first `n` tokens that are flagged and weigh
/// more than nothing; -1 where there is none.
pub open spec fn heaviest(halves: Seq<u128>, flags: Seq<bool>, n: int) -> int
    decreases n,
{
    if n <= 0 {
        -1
    } else {
        let b = heaviest(halves, flags, n - 1);
        let best = if b >= 0 {
            halves[b] as int
        } else {
            0
        };
        if flags[n - 1] && halves[n - 1] > best {
            n - 1
        } else {
            b
        }
    }
}

/// The first lightest among the first `n` tokens.
pub open spec fn lightest(halves: Seq<u128>, n: int) -> int
    decreases n,
{
    if n <= 1 {
        0
    } else {
        let m = lightest(halves, n - 1);
        if halves[n - 1] < halves[m] {
            n - 1
        } else {
            m
        }
    }
}

/// Twice the weight of each token before the weights are normed.
pub open spec fn half_weights(
    tokens: Seq<Seq<char>>,
    tw: Map<Seq<char>, u64>,
    stops: Set<Seq<char>>,
    ov: Map<usize, Seq<char>>,
) -> Seq<u128> {
    Seq::new(tokens.len(), |i: int| half_weight(tokens, tw, stops, ov, i) as u128)
}

/// Which tokens are stop words.
pub open spec fn stop_marks(tokens: Seq<Seq<char>>, stops: Set<Seq<char>>) -> Seq<bool> {
    Seq::new(tokens.len(), |i: int| is_stop(stops, tokens[i]))
}

/// Which tokens are no stop words and hold a number.
pub open spec fn number_marks(tokens: Seq<Seq<char>>, stops: Set<Seq<char>>) -> Seq<bool> {
    Seq::new(tokens.len(), |i: int| !is_stop(stops, tokens[i]) && has_number(tokens[i]))
}

/// Which tokens are no stop words and are places.
pub open spec fn place_marks(
    tokens: Seq<Seq<char>>,
    stops: Set<Seq<char>>,
    topo: Option<Set<Seq<char>>>,
    dict: Option<Map<Seq<char>, Seq<char>>>,
) -> Seq<bool> {
    Seq::new(tokens.len(), |i: int| !is_stop(stops, tokens[i]) && is_place(topo, dict, tokens[i]))
}

/// The seed of the must-haves: the heaviest token with a number, then the
/// heaviest place unless it is the same token.
pub open spec fn seed_of(numeric: int, place: int) -> Seq<usize> {
    let first: Seq<usize> = if numeric >= 0 {
        seq![numeric as usize]
    } else {
        Seq::empty()
    };
    if place >= 0 && place != numeric {
        first.push(place as usize)
    } else {
        first
    }
}

/// What is known of the tokens of a query: which are stop words, what each
/// weighs, which must be had. Without a stop word, in a query of more than
/// three tokens, the lightest token is taken for one if it weighs less than
/// one over twice the number of tokens plus one.
pub open spec fn classes(
    tokens: Seq<Seq<char>>,
    tw: Map<Seq<char>, u64>,
    stops: Set<Seq<char>>,
    ov: Map<usize, Seq<char>>,
    topo: Option<Set<Seq<char>>>,
    dict: Option<Map<Seq<char>, Seq<char>>>,
) -> Classes {
    let len = tokens.len() as int;
    let halves = half_weights(tokens, tw, stops, ov);
    let total = total_upto(tokens, tw, stops, ov, len);
    let rels = if total > 0 {
        halves
    } else {
        Seq::new(tokens.len(), |i: int| 0u128)
    };
    let norm = if total > 0 {
        total
    } else {
        1
    };
    let marks = stop_marks(tokens, stops);
    let low = lightest(halves, len);
    let promoted = positions(marks, true, len).len() == 0 && len > 3 && rels[low] * (2 * len + 1)
        < norm;
    let final_marks = if promoted {
        marks.update(low, true)
    } else {
        marks
    };
    let numbers = number_marks(tokens, stops);
    Classes {
        word_idx: positions(final_marks, false, len),
        stop_idx: positions(final_marks, true, len),
        rels: rels,
        norm: norm,
        must_have: seed_of(
            heaviest(halves, numbers, len),
            heaviest(halves, place_marks(tokens, stops, topo, dict), len),
        ),
        numerics: flagged(numbers),
    }
}

/// What is known of the tokens of a query.
pub struct WordIndex {
    /// The indices of the tokens that are no stop words, rising.
    pub word_idx: Vec<usize>,
    /// The indices of the stop words, rising.
    pub stop_idx: Vec<usize>,
    /// The weight of each token, as a numerator over `norm`.
    pub rels: Vec<u128>,
    /// The denominator of the weights.
    pub norm: u128,
    /// The seed of the must-haves.
    pub must_have: Vec<usize>,
    /// The indices of the tokens that are no stop words and hold a number.
    pub numerics: FnvHashSet<usize>,
}

impl View for WordIndex {
    type V = Classes;

    open spec fn view(&self) -> Classes {
        Classes {
            word_idx: self.word_idx@,
            stop_idx: self.stop_idx@,
            rels: self.rels@,
            norm: self.norm as int,
            must_have: self.must_have@,
            numerics: index_set(self.numerics),
        }
    }
}

/// The positions of the flags that have the given value, rising.
pub fn positions_of(flags: &Vec<bool>, val: bool) -> (r: Vec<usize>)
    ensures
        r@ == positions(flags@, val, flags.len() as int),
        r.len() <= flags.len(),
        indices_within(r@, flags.len() as int),
{
    let mut r: Vec<usize> = Vec::new();
    let mut n: usize = 0;
    while n < flags.len()
        invariant
            n <= flags.len(),
            r@ == positions(flags@, val, n as int),
            r.len() <= n,
            indices_within(r@, n as int),
        decreases flags.len() - n,
    {
        if flags[n] == val {
            r.push(n);
        }
        n += 1;
    }
    r
}

/// The set of the positions whose flag is set.
pub fn flagged_set(flags: &Vec<bool>) -> (r: FnvHashSet<usize>)
    ensures
        index_set(r) == flagged(flags@),
{
    let mut r = index_set_new();
    let mut n: usize = 0;
    while n < flags.len()
        invariant
            n <= flags.len(),
            index_set(r) == flagged(flags@.take(n as int)),
        decreases flags.len() - n,
    {
        let ghost before = index_set(r);
        if flags[n] {
            index_set_insert(&mut r, n);
        }
        assert(index_set(r) =~= flagged(flags@.take(n + 1)));
        n += 1;
    }
    assert(flags@.take(flags.len() as int) =~= flags@);
    r
}

/// The first heaviest flagged token that weighs more than nothing.
pub fn heaviest_of(halves: &Vec<u128>, flags: &Vec<bool>) -> (r: Option<usize>)
    requires
        halves.len() == flags.len(),
    ensures
        match r {
            Some(b) => b < halves.len() && heaviest(halves@, flags@, halves.len() as int) == b,
            None => heaviest(halves@, flags@, halves.len() as int) == -1,
        },
{
    let mut r: Option<usize> = None;
    let mut best: u128 = 0;
    let mut n: usize = 0;
    while n < halves.len()
        invariant
            n <= halves.len(),
            halves.len() == flags.len(),
            match r {
                Some(b) => b < n && heaviest(halves@, flags@, n as int) == b && best == halves@[b as int],
                None => heaviest(halves@, flags@, n as int) == -1 && best == 0,
            },
        decreases halves.len() - n,
    {
        if flags[n] && halves[n] > best {
            best = halves[n];
            r = Some(n);
        }
        n += 1;
    }
    r
}

/// The first lightest token.
pub fn lightest_of(halves: &Vec<u128>) -> (r: usize)
    requires
        halves.len() > 0,
    ensures
        r < halves.len(),
        r == lightest(halves@, halves.len() as int),
{
    let mut r: usize = 0;
    let mut n: usize = 1;
    while n < halves.len()
        invariant
            1 <= n <= halves.len(),
            r < n,
            r == lightest(halves@, n as int),
        decreases halves.len() - n,
    {
        if halves[n] < halves[r] {
            r = n;
        }
        n += 1;
    }
    r
}

fn weight_or_miss(tr_map: &TermWeights, w: &str) -> (r: u64)
    ensures
        r == raw_weight(tr_map@, w@),
{
    match tr_map.get(w) {
        Some(v) => v,
        None => MISS_WORD_REL,
    }
}

fn word_is_stop(stopwords: &FnvHashSet<String>, w: &str) -> (r: bool)
    ensures
        r == is_stop(word_set(*stopwords), w@),
{
    set_contains(stopwords, w) || w.len() == 1
}

fn word_is_place(
    toponyms: &Option<Toponyms>,
    synonyms_dict: &Option<FnvHashMap<String, String>>,
    w: &str,
) -> (r: bool)
    ensures
        r == is_place(opt_toponyms(*toponyms), opt_dict(*synonyms_dict), w@),
{
    match toponyms {
        Some(ts) => {
            ts.contains(w) || match synonyms_dict {
                Some(d) => match dict_get(d, w) {
                    Some(syn) => ts.contains(syn.as_str()),
                    None => false,
                },
                None => false,
            }
        },
        None => false,
    }
}

fn half_weight_of(
    words: &Vec<String>,
    tr_map: &TermWeights,
    stopwords: &FnvHashSet<String>,
    synonyms: &FnvHashMap<usize, String>,
    i: usize,
) -> (r: u128)
    requires
        i < words.len(),
    ensures
        r == half_weight(
            texts(words@),
            tr_map@,
            word_set(*stopwords),
            overlay_map(*synonyms),
            i as int,
        ),
        r <= 2 * u64::MAX,
{
    let w = words[i].as_str();
    let base = weight_or_miss(tr_map, w);
    if word_is_stop(stopwords, w) {
        base as u128
    } else {
        match overlay_get(synonyms, i) {
            Some(alt) => {
                let other = weight_or_miss(tr_map, alt.as_str());
                if other > base {
                    2 * (other as u128)
                } else {
                    2 * (base as u128)
                }
            },
            None => 2 * (base as u128),
        }
    }
}

/// Weighs and classes the tokens of a query: looks each up in the term-weight
/// map, tells stop words, numbers and places, norms the weights, and seeds the
/// must-haves.
pub fn index_words(
    words: &Vec<String>,
    tr_map: &TermWeights,
    stopwords: &FnvHashSet<String>,
    synonyms: &FnvHashMap<usize, String>,
    toponyms: &Option<Toponyms>,
    synonyms_dict: &Option<FnvHashMap<String, String>>,
) -> (r: WordIndex)
    requires
        words.len() <= WORDS_PER_QUERY,
    ensures
        r@ == classes(
            texts(words@),
            tr_map@,
            word_set(*stopwords),
            overlay_map(*synonyms),
            opt_toponyms(*toponyms),
            opt_dict(*synonyms_dict),
        ),
        r.rels.len() == words.len(),
        weights_within(r.rels@, MAX_WEIGHT as int),
        1 <= r.norm <= MAX_NORM,
        r.stop_idx.len() <= words.len(),
        indices_within(r.word_idx@, words.len() as int),
        indices_within(r.stop_idx@, words.len() as int),
{
    let len = words.len();
    let ghost tokens = texts(words@);
    let ghost tw = tr_map@;
    let ghost stops = word_set(*stopwords);
    let ghost ov = overlay_map(*synonyms);
    let ghost topo = opt_toponyms(*toponyms);
    let ghost dict = opt_dict(*synonyms_dict);
    let mut halves: Vec<u128> = Vec::new();
    let mut marks: Vec<bool> = Vec::new();
    let mut numbers: Vec<bool> = Vec::new();
    let mut places: Vec<bool> = Vec::new();
    let mut total: u128 = 0;
    let mut seen_words = set_new();
    let mut i: usize = 0;
    assert(word_set(seen_words) =~= tokens.take(0).to_set());
    while i < len
        invariant
            i <= len,
            word_set(seen_words) == tokens.take(i as int).to_set(),
            len == words.len(),
            len <= WORDS_PER_QUERY,
            tokens == texts(words@),
            tw == tr_map@,
            stops == word_set(*stopwords),
            ov == overlay_map(*synonyms),
            topo == opt_toponyms(*toponyms),
            dict == opt_dict(*synonyms_dict),
            halves.len() == i,
            marks.len() == i,
            numbers.len() == i,
            places.len() == i,
            forall|q: int| 0 <= q < i ==> #[trigger] halves@[q] == half_weight(tokens, tw, stops, ov, q),
            forall|q: int| 0 <= q < i ==> #[trigger] marks@[q] == is_stop(stops, tokens[q]),
            forall|q: int|
                0 <= q < i ==> #[trigger] numbers@[q] == (!is_stop(stops, tokens[q]) && has_number(
                    tokens[q],
                )),
            forall|q: int|
                0 <= q < i ==> #[trigger] places@[q] == (!is_stop(stops, tokens[q]) && is_place(
                    topo,
                    dict,
                    tokens[q],
                )),
            forall|q: int| 0 <= q < i ==> #[trigger] halves@[q] <= 2 * u64::MAX,
            total == total_upto(tokens, tw, stops, ov, i as int),
            total <= i * (2 * u64::MAX),
        decreases len - i,
    {
        let w = words[i].as_str();
        let h = half_weight_of(words, tr_map, stopwords, synonyms, i);
        let stop = word_is_stop(stopwords, w);
        if stop || !set_contains(&seen_words, w) {
            total = total + h;
        }
        set_insert(&mut seen_words, words[i].clone());
        proof {
            assert(tokens.take(i + 1) =~= tokens.take(i as int).push(w@));
            assert forall|v: Seq<char>|
                tokens.take(i as int).to_set().insert(w@).contains(v) <==> tokens.take(
                    i + 1,
                ).to_set().contains(v) by {
                lemma_push_contains(tokens.take(i as int), w@, v);
            }
            assert(word_set(seen_words) =~= tokens.take(i + 1).to_set());
        }
        halves.push(h);
        marks.push(stop);
        numbers.push(!stop && contains_number(w));
        places.push(!stop && word_is_place(toponyms, synonyms_dict, w));
        i += 1;
    }
    assert(halves@ =~= half_weights(tokens, tw, stops, ov));
    assert(marks@ =~= stop_marks(tokens, stops));
    assert(numbers@ =~= number_marks(tokens, stops));
    assert(places@ =~= place_marks(tokens, stops, topo, dict));

    let numeric = heaviest_of(&halves, &numbers);
    let place = heaviest_of(&halves, &places);
    let low = if len > 0 {
        lightest_of(&halves)
    } else {
        0
    };

    let mut must_have: Vec<usize> = Vec::new();
    match numeric {
        Some(x) => {
            must_have.push(x);
        },
        None => {},
    }
    match place {
        Some(y) => {
            let same = match numeric {
                Some(x) => x == y,
                None => false,
            };
            if !same {
                must_have.push(y);
            }
        },
        None => {},
    }

    let numerics = flagged_set(&numbers);
    let stop_before = positions_of(&marks, true);

    let mut rels: Vec<u128> = Vec::new();
    let norm: u128 = if total > 0 {
        total
    } else {
        1
    };
    let mut k: usize = 0;
    while k < len
        invariant
            k <= len,
            len == halves.len(),
            rels.len() == k,
            forall|q: int| 0 <= q < len ==> #[trigger] halves@[q] <= 2 * u64::MAX,
            forall|q: int|
                0 <= q < k ==> #[trigger] rels@[q] == (if total > 0 {
                    halves@[q]
                } else {
                    0u128
                }),
        decreases len - k,
    {
        rels.push(
            if total > 0 {
                halves[k]
            } else {
                0
            },
        );
        k += 1;
    }
    assert(total > 0 ==> rels@ =~= halves@);
    assert(total == 0 ==> rels@ =~= Seq::new(tokens.len(), |i: int| 0u128));

    let low_weight = if len > 0 {
        rels[low]
    } else {
        0
    };
    let span: u128 = (2 * len + 1) as u128;
    assert(low_weight * span <= 62 * u64::MAX) by (nonlinear_arith)
        requires
            low_weight <= 2 * u64::MAX,
            span <= 31,
    ;
    let promoted = stop_before.len() == 0 && len > 3 && low_weight * span < norm;
    if promoted {
        marks.set(low, true);
    }
    let word_idx = positions_of(&marks, false);
    let stop_idx = positions_of(&marks, true);
    WordIndex {
        word_idx: word_idx,
        stop_idx: stop_idx,
        rels: rels,
        norm: norm,
        must_have: must_have,
        numerics: numerics,
    }
}

/// The positions picked are those among the first `n` whose flag has the
/// value.
pub proof fn lemma_positions_hold(flags: Seq<bool>, val: bool, n: int, x: usize)
    requires
        0 <= n <= flags.len(),
        n <= usize::MAX,
    ensures
        positions(flags, val, n).contains(x) <==> (x < n && flags[x as int] == val),
    decreases n,
{
    if n > 0 {
        lemma_positions_hold(flags, val, n - 1, x);
        lemma_push_contains(positions(flags, val, n - 1), (n - 1) as usize, x);
    }
}

/// No token among the first `n` weighs less than the lightest, and none
/// before it weighs as little.
pub proof fn lemma_lightest_is_least(halves: Seq<u128>, n: int, j: int)
    requires
        0 <= j < n <= halves.len(),
    ensures
        0 <= lightest(halves, n) < n,
        halves[lightest(halves, n)] <= halves[j],
        j < lightest(halves, n) ==> halves[lightest(halves, n)] < halves[j],
    decreases n,
{
    if n > 1 {
        if j < n - 1 {
            lemma_lightest_is_least(halves, n - 1, j);
        } else {
            lemma_lightest_is_least(halves, n - 1, 0);
        }
    }
}

/// The heaviest flagged token is flagged and weighs something; no flagged
/// token among the first `n` weighs more, and none before it weighs as much.
/// Where there is none, no flagged token weighs anything.
pub proof fn lemma_heaviest_is_most(halves: Seq<u128>, flags: Seq<bool>, n: int, j: int)
    requires
        0 <= j < n <= halves.len(),
        n <= flags.len(),
        flags[j],
    ensures
        -1 <= heaviest(halves, flags, n) < n,
        heaviest(halves, flags, n) == -1 ==> halves[j] == 0,
        heaviest(halves, flags, n) >= 0 ==> flags[heaviest(halves, flags, n)] && halves[heaviest(
            halves,
            flags,
            n,
        )] > 0 && halves[j] <= halves[heaviest(halves, flags, n)] && (j < heaviest(halves, flags, n)
            ==> halves[j] < halves[heaviest(halves, flags, n)]),
    decreases n,
{
    lemma_heaviest_within(halves, flags, n);
    if j < n - 1 {
        lemma_heaviest_is_most(halves, flags, n - 1, j);
    } else {
        lemma_heaviest_within(halves, flags, n - 1);
    }
}

/// The heaviest flagged token, where there is one, is one of the first `n`,
/// is flagged and weighs something.
pub proof fn lemma_heaviest_within(halves: Seq<u128>, flags: Seq<bool>, n: int)
    requires
        0 <= n <= halves.len(),
        n <= flags.len(),
    ensures
        -1 <= heaviest(halves, flags, n) < n,
        heaviest(halves, flags, n) >= 0 ==> flags[heaviest(halves, flags, n)] && halves[heaviest(
            halves,
            flags,
            n,
        )] > 0,
    decreases n,
{
    if n > 0 {
        lemma_heaviest_within(halves, flags, n - 1);
    }
}

} // verus!
