use crate::chars::{byte_len, chars_of, is_ascii_digit, lemma_push_contains, texts};
use crate::lookup::{
    dict_map, dict_pairs, lists_dict, lists_set, set_contains, set_insert, set_new, set_remove,
    set_words, word_set,
};
use crate::text::{normalize, normalized};
use crate::tokens::{pieces, split_spaces};
use fnv::{FnvHashMap, FnvHashSet};
use vstd::prelude::*;

verus! {

/// A piece of a candidate query counts as a word when it has two bytes or
/// more or is a single digit.
pub open spec fn counts_as_word(w: Seq<char>) -> bool {
    byte_len(w) > 1 || (byte_len(w) == 1 && w.len() > 0 && is_ascii_digit(w[0]))
}

/// Those of the first `n` pieces that count as words, in order.
pub open spec fn words_among(ps: Seq<Seq<char>>, n: int) -> Seq<Seq<char>>
    decreases n,
{
    if n <= 0 {
        Seq::empty()
    } else if counts_as_word(ps[n - 1]) {
        words_among(ps, n - 1).push(ps[n - 1])
    } else {
        words_among(ps, n - 1)
    }
}

/// The candidate's words that are still unmatched, and the words matched.
pub struct Folded {
    pub cands: Set<Seq<char>>,
    pub matches: Set<Seq<char>>,
}

/// The state after the first `n` pairs of word and synonym were applied in
/// turn: where the candidate holds the word and the synonym is not matched
/// yet, the synonym becomes a match and the word leaves the candidate's words.
pub open spec fn folded(start: Folded, pairs: Seq<(Seq<char>, Seq<char>)>, n: int) -> Folded
    decreases n,
{
    if n <= 0 {
        start
    } else {
        let f = folded(start, pairs, n - 1);
        let cw = pairs[n - 1].0;
        let syn = pairs[n - 1].1;
        if f.cands.contains(cw) && !f.matches.contains(syn) {
            Folded { cands: f.cands.remove(cw), matches: f.matches.insert(syn) }
        } else {
            f
        }
    }
}

/// The texts of pairs of strings.
pub open spec fn pair_texts(v: Seq<(String, String)>) -> Seq<(Seq<char>, Seq<char>)> {
    Seq::new(v.len(), |i: int| (v[i].0@, v[i].1@))
}

/// How a candidate query matches the words of the query it is held
/// against, as a value.
pub struct Matching {
    /// The words of the candidate, in order.
    pub words: Seq<Seq<char>>,
    /// The words of the query that the candidate holds, itself or by a
    /// synonym.
    pub matches: Set<Seq<char>>,
    /// The words of the query that are not matched.
    pub missing: Set<Seq<char>>,
    /// The words of the candidate that match nothing.
    pub excess: Set<Seq<char>>,
}

/// How a candidate in normal form matches the words of the query, with the
/// candidate's synonyms applied in the order given: first the words that
/// both hold match; then the synonyms are applied; what the query holds
/// beyond the matches is missing, what is left of the candidate beyond them
/// is in excess.
pub open spec fn matching(
    text: Seq<char>,
    wanted: Set<Seq<char>>,
    pairs: Seq<(Seq<char>, Seq<char>)>,
) -> Matching {
    let words = words_among(pieces(text), pieces(text).len() as int);
    let cands = words.to_set();
    let f = folded(
        Folded { cands: cands, matches: cands.intersect(wanted) },
        pairs,
        pairs.len() as int,
    );
    Matching {
        words: words,
        matches: f.matches,
        missing: wanted.difference(f.matches),
        excess: f.cands.difference(f.matches),
    }
}

/// No word of the one list is a word of the other.
pub open spec fn disjoint(a: Seq<Seq<char>>, b: Seq<Seq<char>>) -> bool {
    forall|i: int, j: int| 0 <= i < a.len() && 0 <= j < b.len() ==> #[trigger] a[i] != #[trigger] b[j]
}

/// The set of the given words.
pub fn word_set_of(words: &Vec<String>) -> (r: FnvHashSet<String>)
    ensures
        word_set(r) == texts(words@).to_set(),
{
    let ghost tokens = texts(words@);
    let mut r = set_new();
    let mut n: usize = 0;
    assert(word_set(r) =~= tokens.take(0).to_set());
    while n < words.len()
        invariant
            n <= words.len(),
            tokens == texts(words@),
            word_set(r) == tokens.take(n as int).to_set(),
        decreases words.len() - n,
    {
        set_insert(&mut r, words[n].clone());
        proof {
            let w = tokens[n as int];
            assert(tokens.take(n + 1) =~= tokens.take(n as int).push(w));
            assert forall|v: Seq<char>|
                tokens.take(n as int).to_set().insert(w).contains(v) <==> tokens.take(
                    n + 1,
                ).to_set().contains(v) by {
                lemma_push_contains(tokens.take(n as int), w, v);
            }
            assert(word_set(r) =~= tokens.take(n + 1).to_set());
        }
        n += 1;
    }
    assert(tokens.take(words.len() as int) =~= tokens);
    r
}

/// Those of the first `n` words that the set holds (`inside`), or those that
/// it does not hold, in order.
pub open spec fn sieve(ws: Seq<Seq<char>>, other: Set<Seq<char>>, inside: bool, n: int) -> Seq<
    Seq<char>,
>
    decreases n,
{
    if n <= 0 {
        Seq::empty()
    } else if other.contains(ws[n - 1]) == inside {
        sieve(ws, other, inside, n - 1).push(ws[n - 1])
    } else {
        sieve(ws, other, inside, n - 1)
    }
}

/// What is sieved out of a list without a word twice is such a list too, and
/// holds the words of the list that the set holds, or those that it does not
/// hold.
pub proof fn lemma_sieve_holds(
    ws: Seq<Seq<char>>,
    other: Set<Seq<char>>,
    inside: bool,
    n: int,
    w: Seq<char>,
)
    requires
        0 <= n <= ws.len(),
        ws.no_duplicates(),
    ensures
        sieve(ws, other, inside, n).contains(w) <==> (ws.take(n).contains(w) && other.contains(w)
            == inside),
        sieve(ws, other, inside, n).no_duplicates(),
    decreases n,
{
    if n > 0 {
        lemma_sieve_holds(ws, other, inside, n - 1, w);
        lemma_sieve_holds(ws, other, inside, n - 1, ws[n - 1]);
        lemma_push_contains(sieve(ws, other, inside, n - 1), ws[n - 1], w);
        lemma_push_contains(ws.take(n - 1), ws[n - 1], w);
        assert(ws.take(n) =~= ws.take(n - 1).push(ws[n - 1]));
        if ws.take(n - 1).contains(ws[n - 1]) {
            let front = ws.take(n - 1);
            let q = choose|q: int| 0 <= q < front.len() && #[trigger] front[q] == ws[n - 1];
            assert(ws[q] == ws[n - 1]);
        }
    }
}

/// The words of the first set that the other holds (`inside`), or those that
/// it does not hold, each once, in the order in which the first set is
/// walked.
pub fn sieve_words(a: &FnvHashSet<String>, b: &FnvHashSet<String>, inside: bool) -> (r: Vec<
    String,
>)
    ensures
        inside ==> lists_set(r@, word_set(*a).intersect(word_set(*b))),
        !inside ==> lists_set(r@, word_set(*a).difference(word_set(*b))),
{
    let all = set_words(a);
    let ghost from = texts(all@);
    let ghost other = word_set(*b);
    let mut r: Vec<String> = Vec::new();
    let mut n: usize = 0;
    assert(texts(r@) =~= sieve(from, other, inside, 0));
    while n < all.len()
        invariant
            n <= all.len(),
            from == texts(all@),
            other == word_set(*b),
            texts(r@) == sieve(from, other, inside, n as int),
        decreases all.len() - n,
    {
        let ghost before = texts(r@);
        assert(all@[n as int]@ == from[n as int]);
        if set_contains(b, all[n].as_str()) == inside {
            r.push(all[n].clone());
            assert(texts(r@) =~= before.push(from[n as int]));
        }
        n += 1;
    }
    proof {
        assert(from.take(all.len() as int) =~= from);
        let got = texts(r@).to_set();
        assert forall|w: Seq<char>| got.contains(w) <==> (word_set(*a).contains(w)
            && other.contains(w) == inside) by {
            lemma_sieve_holds(from, other, inside, all.len() as int, w);
            assert(from.to_set().contains(w) <==> from.contains(w));
        }
        lemma_sieve_holds(from, other, inside, all.len() as int, Seq::empty());
        if inside {
            assert(got =~= word_set(*a).intersect(other));
        } else {
            assert(got =~= word_set(*a).difference(other));
        }
    }
    r
}

fn candidate_words(ps: &Vec<String>) -> (r: Vec<String>)
    ensures
        texts(r@) == words_among(texts(ps@), ps.len() as int),
{
    let mut r: Vec<String> = Vec::new();
    let mut n: usize = 0;
    assert(texts(r@) =~= Seq::empty());
    while n < ps.len()
        invariant
            n <= ps.len(),
            texts(r@) == words_among(texts(ps@), n as int),
        decreases ps.len() - n,
    {
        let ghost before = texts(r@);
        let w = &ps[n];
        assert(w@ == texts(ps@)[n as int]);
        let len = w.as_str().len();
        let keep = if len > 1 {
            true
        } else if len == 1 {
            let cs = chars_of(w.as_str());
            cs.len() > 0 && cs[0] >= '0' && cs[0] <= '9'
        } else {
            false
        };
        if keep {
            r.push(w.clone());
            assert(texts(r@) =~= before.push(w@));
        }
        n += 1;
    }
    r
}

/// Matches a candidate query against the words of the query it is held
/// against, with the candidate's synonyms applied in the order given. Returns
/// the words of the candidate in order, and the matched words, the words of
/// the query that are missing and the words of the candidate that are in
/// excess, each as a list of a set.
pub fn match_words(
    cand_query: &str,
    words_set: &FnvHashSet<String>,
    pairs: &Vec<(String, String)>,
) -> (r: (Vec<String>, Vec<String>, Vec<String>, Vec<String>))
    ensures
        texts(r.0@) == matching(normalized(cand_query@), word_set(*words_set), pair_texts(pairs@)).words,
        lists_set(
            r.1@,
            matching(normalized(cand_query@), word_set(*words_set), pair_texts(pairs@)).matches,
        ),
        lists_set(
            r.2@,
            matching(normalized(cand_query@), word_set(*words_set), pair_texts(pairs@)).missing,
        ),
        lists_set(
            r.3@,
            matching(normalized(cand_query@), word_set(*words_set), pair_texts(pairs@)).excess,
        ),
        disjoint(texts(r.2@), texts(r.1@)),
        disjoint(texts(r.3@), texts(r.1@)),
{
    let text = normalize(cand_query);
    let ps = split_spaces(text.as_str());
    let cand_words = candidate_words(&ps);
    let mut cand_words_set = word_set_of(&cand_words);
    let direct = sieve_words(&cand_words_set, words_set, true);
    let mut match_words = word_set_of(&direct);
    let ghost start = Folded { cands: word_set(cand_words_set), matches: word_set(match_words) };
    let ghost steps = pair_texts(pairs@);
    let mut n: usize = 0;
    while n < pairs.len()
        invariant
            n <= pairs.len(),
            steps == pair_texts(pairs@),
            (Folded { cands: word_set(cand_words_set), matches: word_set(match_words) }) == folded(
                start,
                steps,
                n as int,
            ),
        decreases pairs.len() - n,
    {
        assert(steps[n as int] == (pairs@[n as int].0@, pairs@[n as int].1@));
        let cand_word = &pairs[n].0;
        let syn = &pairs[n].1;
        if set_contains(&cand_words_set, cand_word.as_str()) && !set_contains(
            &match_words,
            syn.as_str(),
        ) {
            set_insert(&mut match_words, syn.clone());
            set_remove(&mut cand_words_set, cand_word.as_str());
        }
        n += 1;
    }
    let miss_words = sieve_words(words_set, &match_words, false);
    let excess_words = sieve_words(&cand_words_set, &match_words, false);
    let matched = set_words(&match_words);
    proof {
        let m = word_set(match_words);
        assert forall|i: int, j: int|
            0 <= i < miss_words.len() && 0 <= j < matched.len() implies #[trigger] texts(
            miss_words@,
        )[i] != #[trigger] texts(matched@)[j] by {
            assert(texts(miss_words@).to_set().contains(texts(miss_words@)[i]));
            assert(texts(matched@).to_set().contains(texts(matched@)[j]));
        }
        assert forall|i: int, j: int|
            0 <= i < excess_words.len() && 0 <= j < matched.len() implies #[trigger] texts(
            excess_words@,
        )[i] != #[trigger] texts(matched@)[j] by {
            assert(texts(excess_words@).to_set().contains(texts(excess_words@)[i]));
            assert(texts(matched@).to_set().contains(texts(matched@)[j]));
        }
    }
    (cand_words, matched, miss_words, excess_words)
}

/// Matches a candidate query against the set of words of the query it is
/// held against, with the candidate's own synonyms. The synonyms are walked
/// in an order that is not fixed: the result is that of `match_words` for
/// some order of them.
pub fn match_queries(
    cand_query: &str,
    words_set: &FnvHashSet<String>,
    cand_synonyms: &FnvHashMap<String, String>,
) -> (r: (Vec<String>, Vec<String>, Vec<String>, Vec<String>))
    ensures
        exists|pairs: Seq<(String, String)>|
            #[trigger] lists_dict(pairs, dict_map(*cand_synonyms)) && texts(r.0@) == matching(
                normalized(cand_query@),
                word_set(*words_set),
                pair_texts(pairs),
            ).words && lists_set(
                r.1@,
                matching(normalized(cand_query@), word_set(*words_set), pair_texts(pairs)).matches,
            ) && lists_set(
                r.2@,
                matching(normalized(cand_query@), word_set(*words_set), pair_texts(pairs)).missing,
            ) && lists_set(
                r.3@,
                matching(normalized(cand_query@), word_set(*words_set), pair_texts(pairs)).excess,
            ),
        disjoint(texts(r.2@), texts(r.1@)),
        disjoint(texts(r.3@), texts(r.1@)),
{
    let pairs = dict_pairs(cand_synonyms);
    let r = match_words(cand_query, words_set, &pairs);
    assert(lists_dict(pairs@, dict_map(*cand_synonyms)));
    r
}

} // verus!
