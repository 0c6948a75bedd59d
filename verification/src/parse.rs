use crate::chars::texts;
use crate::compose::{compose, composed, distinct_keys, indexed, listed, no_ngrams, update};
use crate::lookup::{
    ids_map, opt_dict, opt_toponyms, overlay_map, weight_map, weights_insert, weights_new,
    word_set, TermWeights, Toponyms,
};
use crate::model::{Gram, ParseMode, MAX_WEIGHT, WORDS_PER_QUERY};
use crate::must::must_choice;
use crate::rank::weight_order;
use crate::scan::{get_stop_ngrams, stop_list};
use crate::stopgrams::weights_within;
use crate::text::normalized;
use crate::tokens::{get_norm_query_vec, overlay_of, tokens_of};
use crate::weights::{classes, index_words};
use fnv::{FnvHashMap, FnvHashSet};
use vstd::prelude::*;

verus! {

/// What parsing a query gives, as a value.
pub struct Outcome {
    /// The n-grams, each key once.
    pub ngrams: Seq<Gram>,
    /// The tokens.
    pub tokens: Seq<Seq<char>>,
    /// The weight of each token, as a numerator over `scale`.
    pub token_weights: Seq<int>,
    /// The denominator of all weights, those of the n-grams too.
    pub scale: int,
    /// The indices of the tokens that a matching query must hold.
    pub must_have: Set<usize>,
    /// The alternates of the tokens, by token index.
    pub overlay: Map<usize, Seq<char>>,
}

/// What parsing a query gives. A query without tokens gives nothing; one of a
/// single token gives that token with the weight one; any other gives what
/// its tokens, their classes and its stop-n-grams compose.
pub open spec fn parsed(
    q: Seq<char>,
    dict: Option<Map<Seq<char>, Seq<char>>>,
    topo: Option<Set<Seq<char>>>,
    stops: Set<Seq<char>>,
    tw: Map<Seq<char>, u64>,
    mode: ParseMode,
) -> Outcome {
    let text = normalized(q);
    let tokens = tokens_of(text);
    let ov = overlay_of(text, dict, mode);
    if tokens.len() == 0 {
        Outcome {
            ngrams: Seq::empty(),
            tokens: tokens,
            token_weights: Seq::empty(),
            scale: 100,
            must_have: Set::empty(),
            overlay: ov,
        }
    } else if tokens.len() == 1 {
        Outcome {
            ngrams: seq![Gram { key: tokens[0], weight: 100, indices: seq![0usize] }],
            tokens: tokens,
            token_weights: seq![100int],
            scale: 100,
            must_have: Set::empty().insert(0usize),
            overlay: ov,
        }
    } else {
        let c = classes(tokens, tw, stops, ov, topo, dict);
        let list = stop_list(tokens, c.rels, c.word_idx, c.stop_idx, ov, mode);
        Outcome {
            ngrams: composed(tokens, c.rels, c.norm, c.must_have, c.numerics, list, ov, mode),
            tokens: tokens,
            token_weights: Seq::new(tokens.len(), |i: int| 100 * c.rels[i]),
            scale: 100 * c.norm,
            must_have: must_choice(
                weight_order(c.rels),
                c.rels,
                c.norm,
                c.must_have,
                c.numerics,
                tokens.len() as int,
            ).have,
            overlay: ov,
        }
    }
}

/// What parsing a query gives: the keys of the n-grams with their weights
/// side by side and their token indices by key, the tokens with their
/// weights, the denominator that all weights share, the must-have indices,
/// and the alternates.
pub struct Parsed {
    /// The keys of the n-grams, each once.
    pub ngrams: Vec<String>,
    /// The weight of each n-gram, as a numerator over `weight_scale`.
    pub ngrams_relevs: Vec<u128>,
    /// The indices of the tokens that each n-gram was made of, by its key.
    pub ngrams_ids: FnvHashMap<String, Vec<usize>>,
    /// The tokens of the query.
    pub words: Vec<String>,
    /// The weight of each token, as a numerator over `weight_scale`.
    pub words_relevs: Vec<u128>,
    /// The denominator of all weights.
    pub weight_scale: u128,
    /// The indices of the tokens that a matching query must hold, each once,
    /// in no fixed order.
    pub must_have: Vec<usize>,
    /// The alternates of the tokens, by token index; none when indexing.
    pub synonyms: FnvHashMap<usize, String>,
}

impl View for Parsed {
    type V = Outcome;

    open spec fn view(&self) -> Outcome {
        Outcome {
            ngrams: listed(self.ngrams@, self.ngrams_relevs@, ids_map(self.ngrams_ids)),
            tokens: texts(self.words@),
            token_weights: Seq::new(self.words_relevs.len() as nat, |i: int| self.words_relevs@[i] as int),
            scale: self.weight_scale as int,
            must_have: self.must_have@.to_set(),
            overlay: overlay_map(self.synonyms),
        }
    }
}

impl Parsed {
    /// Keys and tokens have a weight each, the map of token indices has an
    /// entry for each key and for nothing else, and no must-have comes twice.
    pub open spec fn wf(&self) -> bool {
        &&& self.ngrams.len() == self.ngrams_relevs.len()
        &&& indexed(self.ngrams@, ids_map(self.ngrams_ids))
        &&& self.must_have@.no_duplicates()
        &&& self.words.len() == self.words_relevs.len()
    }
}

fn scale_weights(rels: &Vec<u128>) -> (r: Vec<u128>)
    requires
        weights_within(rels@, MAX_WEIGHT as int),
    ensures
        r.len() == rels.len(),
        forall|i: int| 0 <= i < r.len() ==> #[trigger] r@[i] == 100 * rels@[i],
{
    let mut r: Vec<u128> = Vec::new();
    let mut i: usize = 0;
    while i < rels.len()
        invariant
            i <= rels.len(),
            r.len() == i,
            weights_within(rels@, MAX_WEIGHT as int),
            forall|q: int| 0 <= q < i ==> #[trigger] r@[q] == 100 * rels@[q],
        decreases rels.len() - i,
    {
        r.push(100 * rels[i]);
        i += 1;
    }
    r
}

/// Parses a query into weighted n-grams, its tokens with their weights, the
/// must-have tokens and, when searching, the alternates of its tokens.
pub fn parse(
    query: &str,
    synonyms_dict: &Option<FnvHashMap<String, String>>,
    toponyms: &Option<Toponyms>,
    stopwords: &FnvHashSet<String>,
    tr_map: &TermWeights,
    mode: ParseMode,
) -> (r: Parsed)
    ensures
        r@ == parsed(
            query@,
            opt_dict(*synonyms_dict),
            opt_toponyms(*toponyms),
            word_set(*stopwords),
            tr_map@,
            mode,
        ),
        r.wf(),
        r.words.len() <= WORDS_PER_QUERY,
        distinct_keys(r@.ngrams),
{
    let (words, synonyms) = get_norm_query_vec(query, synonyms_dict, mode);
    let (mut ngrams, mut ngrams_relevs, mut ngrams_ids) = no_ngrams();
    if words.len() == 0 {
        let r = Parsed {
            ngrams: ngrams,
            ngrams_relevs: ngrams_relevs,
            ngrams_ids: ngrams_ids,
            words: words,
            words_relevs: Vec::new(),
            weight_scale: 100,
            must_have: Vec::new(),
            synonyms: synonyms,
        };
        assert(r@.token_weights =~= Seq::empty());
        assert(r@.must_have =~= Set::empty());
        return r;
    }
    if words.len() == 1 {
        let first = vec![0];
        assert(first@ =~= seq![0usize]);
        update(&mut ngrams, &mut ngrams_relevs, &mut ngrams_ids, words[0].clone(), 100, first);
        let r = Parsed {
            ngrams: ngrams,
            ngrams_relevs: ngrams_relevs,
            ngrams_ids: ngrams_ids,
            words: words,
            words_relevs: vec![100],
            weight_scale: 100,
            must_have: vec![0],
            synonyms: synonyms,
        };
        assert(r@.ngrams =~= seq![
            Gram { key: texts(r.words@)[0], weight: 100, indices: seq![0usize] },
        ]);
        assert(r@.token_weights =~= seq![100int]);
        assert(r.must_have@[0] == 0);
        assert(r@.must_have =~= Set::empty().insert(0usize));
        return r;
    }
    let wi = index_words(&words, tr_map, stopwords, &synonyms, toponyms, synonyms_dict);
    let mut word_idx = wi.word_idx;
    let stop_ngrams = get_stop_ngrams(
        &words,
        &wi.rels,
        &mut word_idx,
        &wi.stop_idx,
        &synonyms,
        mode,
    );
    let (ngrams, ngrams_relevs, ngrams_ids, must_have) = compose(
        &words,
        &wi.rels,
        wi.norm,
        &wi.must_have,
        &wi.numerics,
        &stop_ngrams,
        &synonyms,
        mode,
    );
    let words_relevs = scale_weights(&wi.rels);
    let r = Parsed {
        ngrams: ngrams,
        ngrams_relevs: ngrams_relevs,
        ngrams_ids: ngrams_ids,
        words: words,
        words_relevs: words_relevs,
        weight_scale: 100 * wi.norm,
        must_have: must_have,
        synonyms: synonyms,
    };
    assert(r@.token_weights =~= Seq::new(
        r.words.len() as nat,
        |i: int| 100 * wi.rels@[i],
    ));
    r
}

/// The weight of each of the first `n` tokens by its word; of a word that
/// comes more often the weight of its last token.
pub open spec fn relevances(tokens: Seq<Seq<char>>, rels: Seq<u128>, n: int) -> Map<
    Seq<char>,
    u128,
>
    decreases n,
{
    if n <= 0 {
        Map::empty()
    } else {
        relevances(tokens, rels, n - 1).insert(tokens[n - 1], rels[n - 1])
    }
}

/// The weights of the tokens of a query by word: the numerator of each
/// weight, and the denominator that the weights share. The alternates are
/// those given, not those of the query.
pub fn get_words_relevances(
    query: &str,
    tr_map: &TermWeights,
    stopwords: &FnvHashSet<String>,
    synonyms: &FnvHashMap<usize, String>,
    toponyms: &Option<Toponyms>,
    synonyms_dict: &Option<FnvHashMap<String, String>>,
    mode: ParseMode,
) -> (r: (FnvHashMap<String, u128>, u128))
    ensures
        ({
            let tokens = tokens_of(normalized(query@));
            let c = classes(
                tokens,
                tr_map@,
                word_set(*stopwords),
                overlay_map(*synonyms),
                opt_toponyms(*toponyms),
                opt_dict(*synonyms_dict),
            );
            &&& weight_map(r.0) == relevances(tokens, c.rels, tokens.len() as int)
            &&& r.1 == c.norm
        }),
{
    let none: Option<FnvHashMap<String, String>> = None;
    let (words, _) = get_norm_query_vec(query, &none, mode);
    let wi = index_words(&words, tr_map, stopwords, synonyms, toponyms, synonyms_dict);
    let ghost tokens = texts(words@);
    let mut by_word = weights_new();
    assert(weight_map(by_word) =~= Map::empty());
    let mut n: usize = 0;
    while n < words.len()
        invariant
            n <= words.len(),
            tokens == texts(words@),
            wi.rels.len() == words.len(),
            weight_map(by_word) == relevances(tokens, wi.rels@, n as int),
        decreases words.len() - n,
    {
        assert(words@[n as int]@ == tokens[n as int]);
        weights_insert(&mut by_word, words[n].clone(), wi.rels[n]);
        n += 1;
    }
    (by_word, wi.norm)
}

} // verus!
