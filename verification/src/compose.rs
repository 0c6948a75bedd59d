use crate::bow::{bow2, bow2_key, bow3, bow3_key};
use crate::chars::{clone_indices, texts};
use crate::lookup::{
    ids_contains_key, ids_insert, ids_map, ids_new, index_set, overlay_get, overlay_map,
};
use crate::model::{Gram, ParseMode, MAX_GRAM_WEIGHT, MAX_NORM, MAX_WEIGHT, WORDS_PER_QUERY};
use crate::must::{find_must_have_words, must_choice, threshold_den};
use crate::rank::{sort_by_weight, weight_order};
use crate::stopgrams::{
    grams, indices_within, list_within, variants_get, weights_within, StopList, StopNgram,
    StopNgrams,
};
use fnv::{FnvHashMap, FnvHashSet};
use vstd::prelude::*;

verus! {

/// Some n-gram of the list has the key.
pub open spec fn has_key(out: Seq<Gram>, key: Seq<char>) -> bool {
    exists|i: int| 0 <= i < out.len() && (#[trigger] out[i]).key == key
}

/// The list with the n-gram at its end, unless its key is there already.
pub open spec fn added(out: Seq<Gram>, g: Gram) -> Seq<Gram> {
    if has_key(out, g.key) {
        out
    } else {
        out.push(g)
    }
}

/// The list after each of the n-grams was added in turn.
pub open spec fn added_all(out: Seq<Gram>, gs: Seq<Gram>) -> Seq<Gram>
    decreases gs.len(),
{
    if gs.len() == 0 {
        out
    } else {
        added(added_all(out, gs.drop_last()), gs.last())
    }
}

/// No key occurs twice.
pub open spec fn distinct_keys(out: Seq<Gram>) -> bool {
    forall|i: int, j: int| 0 <= i < j < out.len() ==> (#[trigger] out[i]).key != (
    #[trigger] out[j]).key
}

/// The n-grams that a list of keys, the list of their weights and the map of
/// their token indices hold.
pub open spec fn listed(
    keys: Seq<String>,
    weights: Seq<u128>,
    ids: Map<Seq<char>, Seq<usize>>,
) -> Seq<Gram> {
    Seq::new(
        keys.len(),
        |i: int| Gram { key: keys[i]@, weight: weights[i] as int, indices: ids[keys[i]@] },
    )
}

/// The map has an entry for each key of the list and for nothing else.
pub open spec fn indexed(keys: Seq<String>, ids: Map<Seq<char>, Seq<usize>>) -> bool {
    forall|k: Seq<char>|
        ids.contains_key(k) <==> exists|i: int| 0 <= i < keys.len() && (#[trigger] keys[i])@ == k
}

/// The factor, in hundredths, by which a pair of stop-n-grams with `step`
/// others between them is weighed: one hundredth less for each.
pub open spec fn pair_factor(step: int) -> int {
    if step < 100 {
        100 - step
    } else {
        0
    }
}

/// The n-gram with its weight in hundredths.
pub open spec fn scaled(g: Gram) -> Gram {
    Gram { key: g.key, weight: 100 * g.weight, indices: g.indices }
}

/// The first `n` n-grams, each with its weight in hundredths.
pub open spec fn scaled_all(gs: Seq<Gram>, n: int) -> Seq<Gram> {
    Seq::new(n as nat, |q: int| scaled(gs[q]))
}

/// The pairs of the first `n` variants of one stop-n-gram with another
/// stop-n-gram that follows it.
pub open spec fn left_variants(alts: Seq<Gram>, other: Gram, w: int, n: int) -> Seq<Gram> {
    Seq::new(
        n as nat,
        |q: int|
            Gram {
                key: bow2_key(alts[q].key, other.key),
                weight: w,
                indices: alts[q].indices + other.indices,
            },
    )
}

/// The pairs of a stop-n-gram with the first `n` variants of another that
/// follows it.
pub open spec fn right_variants(base: Gram, alts: Seq<Gram>, w: int, n: int) -> Seq<Gram> {
    Seq::new(
        n as nat,
        |q: int|
            Gram {
                key: bow2_key(base.key, alts[q].key),
                weight: w,
                indices: alts[q].indices + base.indices,
            },
    )
}

/// The weight of the pair of the stop-n-grams at `i` and `j`, in hundredths.
pub open spec fn pair_weight(list: StopList, i: int, j: int) -> int {
    pair_factor(j - i - 1) * (list.grams[i].weight + list.grams[j].weight)
}

/// The pair of the stop-n-grams at `i < j` is made when fewer than three
/// others lie between them or its weight reaches 1.8 over the number of tokens.
pub open spec fn pair_counts(list: StopList, len: int, norm: int, i: int, j: int) -> bool {
    j - i - 1 < 3 || pair_weight(list, i, j) * len >= 180 * norm
}

/// What the pair of the stop-n-grams at `i < j` offers: the pair, then the
/// pairs with the variants of the first, then those with the variants of the
/// second.
pub open spec fn pair_cands(list: StopList, len: int, norm: int, i: int, j: int) -> Seq<Gram> {
    let gi = list.grams[i];
    let gj = list.grams[j];
    let w = pair_weight(list, i, j);
    if pair_counts(list, len, norm, i, j) {
        seq![Gram { key: bow2_key(gi.key, gj.key), weight: w, indices: gi.indices + gj.indices }]
            + left_variants(list.alts[i], gj, w, list.alts[i].len() as int) + right_variants(
            gi,
            list.alts[j],
            w,
            list.alts[j].len() as int,
        )
    } else {
        Seq::empty()
    }
}

/// Some stop-n-gram after `i` and up to `j` has the key of the one at `i`.
pub open spec fn blocked_upto(list: StopList, i: int, j: int) -> bool
    decreases j - i,
{
    if j <= i {
        false
    } else {
        blocked_upto(list, i, j - 1) || list.grams[j].key == list.grams[i].key
    }
}

/// What the pairs of the stop-n-gram at `i` with those after it and before
/// `m` offer; the pairs end at the first with the same key.
pub open spec fn row_cands(list: StopList, len: int, norm: int, i: int, m: int) -> Seq<Gram>
    decreases m - i,
{
    if m <= i + 1 {
        Seq::empty()
    } else if blocked_upto(list, i, m - 1) {
        row_cands(list, len, norm, i, m - 1)
    } else {
        row_cands(list, len, norm, i, m - 1) + pair_cands(list, len, norm, i, m - 1)
    }
}

/// What the stop-n-gram at `i` offers by itself: where it has two tokens or
/// more and weighs more than 1.8 over the number of tokens, itself and then
/// its variants.
pub open spec fn self_cands(list: StopList, len: int, norm: int, i: int) -> Seq<Gram> {
    let g = list.grams[i];
    if g.indices.len() > 1 && 5 * g.weight * len > 9 * norm {
        seq![scaled(g)] + scaled_all(list.alts[i], list.alts[i].len() as int)
    } else {
        Seq::empty()
    }
}

/// What the first `n` stop-n-grams offer: each by itself, then its pairs.
pub open spec fn stop_cands(list: StopList, len: int, norm: int, n: int) -> Seq<Gram>
    decreases n,
{
    if n <= 0 {
        Seq::empty()
    } else {
        stop_cands(list, len, norm, n - 1) + self_cands(list, len, norm, n - 1) + row_cands(
            list,
            len,
            norm,
            n - 1,
            list.grams.len() as int,
        )
    }
}

/// An n-gram of one token.
pub open spec fn uni_gram(key: Seq<char>, w: int, x: usize) -> Gram {
    Gram { key: key, weight: w, indices: seq![x] }
}

/// An n-gram of two tokens.
pub open spec fn duo_gram(ka: Seq<char>, kb: Seq<char>, w: int, a: usize, b: usize) -> Gram {
    Gram { key: bow2_key(ka, kb), weight: w, indices: seq![a, b] }
}

/// An n-gram of three tokens.
pub open spec fn trio_gram(
    ka: Seq<char>,
    kb: Seq<char>,
    kc: Seq<char>,
    w: int,
    a: usize,
    b: usize,
    c: usize,
) -> Gram {
    Gram { key: bow3_key(ka, kb, kc), weight: w, indices: seq![a, b, c] }
}

/// The token has an alternate that counts: only a search uses alternates.
pub open spec fn has_alt(ov: Map<usize, Seq<char>>, mode: ParseMode, x: usize) -> bool {
    mode == ParseMode::Search && ov.contains_key(x)
}

/// A token by itself, and then its alternate.
pub open spec fn uni_cands(
    tokens: Seq<Seq<char>>,
    rels: Seq<u128>,
    ov: Map<usize, Seq<char>>,
    mode: ParseMode,
    x: usize,
) -> Seq<Gram> {
    let w = 100 * rels[x as int];
    if has_alt(ov, mode, x) {
        seq![uni_gram(tokens[x as int], w, x), uni_gram(ov[x], w, x)]
    } else {
        seq![uni_gram(tokens[x as int], w, x)]
    }
}

/// Two tokens, and then the same with the alternate of the first.
pub open spec fn duo_cands(
    tokens: Seq<Seq<char>>,
    rels: Seq<u128>,
    ov: Map<usize, Seq<char>>,
    mode: ParseMode,
    a: usize,
    b: usize,
) -> Seq<Gram> {
    let w = 100 * (rels[a as int] + rels[b as int]);
    if has_alt(ov, mode, a) {
        seq![
            duo_gram(tokens[a as int], tokens[b as int], w, a, b),
            duo_gram(ov[a], tokens[b as int], w, a, b),
        ]
    } else {
        seq![duo_gram(tokens[a as int], tokens[b as int], w, a, b)]
    }
}

/// Three tokens, and then the same with the alternate of the first.
pub open spec fn trio_cands(
    tokens: Seq<Seq<char>>,
    rels: Seq<u128>,
    ov: Map<usize, Seq<char>>,
    mode: ParseMode,
    a: usize,
    b: usize,
    c: usize,
) -> Seq<Gram> {
    let w = 100 * (rels[a as int] + rels[b as int] + rels[c as int]);
    if has_alt(ov, mode, a) {
        seq![
            trio_gram(tokens[a as int], tokens[b as int], tokens[c as int], w, a, b, c),
            trio_gram(ov[a], tokens[b as int], tokens[c as int], w, a, b, c),
        ]
    } else {
        seq![trio_gram(tokens[a as int], tokens[b as int], tokens[c as int], w, a, b, c)]
    }
}

/// A token with each of two others, and then the same two pairs with the
/// alternate of the token.
pub open spec fn spread_cands(
    tokens: Seq<Seq<char>>,
    rels: Seq<u128>,
    ov: Map<usize, Seq<char>>,
    mode: ParseMode,
    a: usize,
    b: usize,
    c: usize,
) -> Seq<Gram> {
    let wb = 100 * (rels[a as int] + rels[b as int]);
    let wc = 100 * (rels[a as int] + rels[c as int]);
    if has_alt(ov, mode, a) {
        seq![
            duo_gram(tokens[a as int], tokens[b as int], wb, a, b),
            duo_gram(tokens[a as int], tokens[c as int], wc, a, c),
            duo_gram(ov[a], tokens[b as int], wb, a, b),
            duo_gram(ov[a], tokens[c as int], wc, a, c),
        ]
    } else {
        seq![
            duo_gram(tokens[a as int], tokens[b as int], wb, a, b),
            duo_gram(tokens[a as int], tokens[c as int], wc, a, c),
        ]
    }
}

/// The heaviest token by itself, in a query of fewer than four tokens or
/// where it weighs more than one and a half times the second.
pub open spec fn first_cands(
    tokens: Seq<Seq<char>>,
    rels: Seq<u128>,
    order: Seq<usize>,
    ov: Map<usize, Seq<char>>,
    mode: ParseMode,
) -> Seq<Gram> {
    if tokens.len() < 4 || 2 * rels[order[0] as int] > 3 * rels[order[1] as int] {
        uni_cands(tokens, rels, ov, mode, order[0])
    } else {
        Seq::empty()
    }
}

/// The second token by itself, where it weighs more than 0.8 of the first.
pub open spec fn second_cands(
    tokens: Seq<Seq<char>>,
    rels: Seq<u128>,
    order: Seq<usize>,
    ov: Map<usize, Seq<char>>,
    mode: ParseMode,
) -> Seq<Gram> {
    if 5 * rels[order[1] as int] > 4 * rels[order[0] as int] {
        uni_cands(tokens, rels, ov, mode, order[1])
    } else {
        Seq::empty()
    }
}

/// The token picked as must-have by itself: in a search of fewer than five
/// tokens.
pub open spec fn must_cands(
    tokens: Seq<Seq<char>>,
    rels: Seq<u128>,
    must_word: int,
    ov: Map<usize, Seq<char>>,
    mode: ParseMode,
) -> Seq<Gram> {
    if 0 <= must_word < tokens.len() && tokens.len() < 5 && mode == ParseMode::Search {
        uni_cands(tokens, rels, ov, mode, must_word as usize)
    } else {
        Seq::empty()
    }
}

/// In a query of more than three tokens: the three heaviest together; then,
/// where the heaviest weighs no more than the word threshold, the heaviest
/// with the lightest, else the second with the lightest and with the third.
pub open spec fn top_cands(
    tokens: Seq<Seq<char>>,
    rels: Seq<u128>,
    norm: int,
    order: Seq<usize>,
    ov: Map<usize, Seq<char>>,
    mode: ParseMode,
) -> Seq<Gram> {
    let len = tokens.len() as int;
    if len > 3 {
        trio_cands(tokens, rels, ov, mode, order[0], order[1], order[2]) + if rels[order[0] as int]
            * threshold_den(len) <= norm {
            duo_cands(tokens, rels, ov, mode, order[0], order[len - 1])
        } else {
            spread_cands(tokens, rels, ov, mode, order[1], order[len - 1], order[2])
        }
    } else {
        Seq::empty()
    }
}

/// The two heaviest together, in a query of three tokens or more; the first
/// with the third, in one of four or more.
pub open spec fn closing_cands(
    tokens: Seq<Seq<char>>,
    rels: Seq<u128>,
    order: Seq<usize>,
    ov: Map<usize, Seq<char>>,
    mode: ParseMode,
) -> Seq<Gram> {
    (if tokens.len() >= 3 {
        duo_cands(tokens, rels, ov, mode, order[0], order[1])
    } else {
        Seq::empty()
    }) + (if tokens.len() >= 4 {
        duo_cands(tokens, rels, ov, mode, order[0], order[2])
    } else {
        Seq::empty()
    })
}

/// Everything that a query of two tokens or more offers as n-gram, in the
/// order in which it is offered. The weights of the tokens are numerators over
/// `norm`; those of the n-grams are numerators over a hundred times `norm`.
pub open spec fn candidates(
    tokens: Seq<Seq<char>>,
    rels: Seq<u128>,
    norm: int,
    seed: Seq<usize>,
    numerics: Set<usize>,
    list: StopList,
    ov: Map<usize, Seq<char>>,
    mode: ParseMode,
) -> Seq<Gram> {
    let len = tokens.len() as int;
    let order = weight_order(rels);
    let must = must_choice(order, rels, norm, seed, numerics, len);
    stop_cands(list, len, norm, list.grams.len() as int) + first_cands(
        tokens,
        rels,
        order,
        ov,
        mode,
    ) + second_cands(tokens, rels, order, ov, mode) + must_cands(tokens, rels, must.word, ov, mode)
        + top_cands(tokens, rels, norm, order, ov, mode) + closing_cands(
        tokens,
        rels,
        order,
        ov,
        mode,
    )
}

/// The n-grams of a query of two tokens or more: what it offers, each key
/// once, the first offer of a key being the one that stays.
pub open spec fn composed(
    tokens: Seq<Seq<char>>,
    rels: Seq<u128>,
    norm: int,
    seed: Seq<usize>,
    numerics: Set<usize>,
    list: StopList,
    ov: Map<usize, Seq<char>>,
    mode: ParseMode,
) -> Seq<Gram> {
    added_all(Seq::empty(), candidates(tokens, rels, norm, seed, numerics, list, ov, mode))
}

/// Adding in turn keeps the keys distinct.
pub proof fn lemma_added_all_distinct(out: Seq<Gram>, gs: Seq<Gram>)
    requires
        distinct_keys(out),
    ensures
        distinct_keys(added_all(out, gs)),
    decreases gs.len(),
{
    if gs.len() > 0 {
        lemma_added_all_distinct(out, gs.drop_last());
    }
}

/// Adds an n-gram with its weight and its token indices, unless one with the
/// same key is there already.
pub fn update(
    ngrams: &mut Vec<String>,
    relevs: &mut Vec<u128>,
    ngrams_ids: &mut FnvHashMap<String, Vec<usize>>,
    ngram: String,
    relev: u128,
    indices: Vec<usize>,
)
    requires
        old(ngrams).len() == old(relevs).len(),
        indexed(old(ngrams)@, ids_map(*old(ngrams_ids))),
    ensures
        final(ngrams).len() == final(relevs).len(),
        indexed(final(ngrams)@, ids_map(*final(ngrams_ids))),
        listed(final(ngrams)@, final(relevs)@, ids_map(*final(ngrams_ids))) == added(
            listed(old(ngrams)@, old(relevs)@, ids_map(*old(ngrams_ids))),
            Gram { key: ngram@, weight: relev as int, indices: indices@ },
        ),
{
    let ghost keys = ngrams@;
    let ghost ids = ids_map(*ngrams_ids);
    let ghost before = listed(ngrams@, relevs@, ids);
    let ghost g = Gram { key: ngram@, weight: relev as int, indices: indices@ };
    let found = ids_contains_key(ngrams_ids, ngram.as_str());
    proof {
        if found {
            let i = choose|i: int| 0 <= i < keys.len() && (#[trigger] keys[i])@ == ngram@;
            assert(before[i].key == g.key);
        } else {
            assert forall|i: int| 0 <= i < before.len() implies (#[trigger] before[i]).key
                != g.key by {
                assert(keys[i]@ == before[i].key);
            }
        }
    }
    if !found {
        relevs.push(relev);
        ngrams.push(ngram.clone());
        ids_insert(ngrams_ids, ngram, indices);
        proof {
            let after = ids_map(*ngrams_ids);
            assert forall|k: Seq<char>| after.contains_key(k) <==> exists|i: int|
                0 <= i < ngrams@.len() && (#[trigger] ngrams@[i])@ == k by {
                if after.contains_key(k) {
                    if k == g.key {
                        assert(ngrams@[keys.len() as int]@ == k);
                    } else {
                        let i = choose|i: int| 0 <= i < keys.len() && (#[trigger] keys[i])@ == k;
                        assert(ngrams@[i]@ == k);
                    }
                }
                if exists|i: int| 0 <= i < ngrams@.len() && (#[trigger] ngrams@[i])@ == k {
                    let i = choose|i: int| 0 <= i < ngrams@.len() && (#[trigger] ngrams@[i])@ == k;
                    if i < keys.len() {
                        assert(keys[i]@ == k);
                    }
                }
            }
            assert forall|i: int| 0 <= i < keys.len() implies after[(#[trigger] keys[i])@]
                == ids[keys[i]@] by {
                assert(ids.contains_key(keys[i]@));
            }
            assert(listed(ngrams@, relevs@, after) =~= before.push(g));
        }
    }
}

fn push_gram(cands: &mut Vec<StopNgram>, key: String, w: u128, ids: Vec<usize>)
    ensures
        grams(final(cands)@) == grams(old(cands)@).push(
            Gram { key: key@, weight: w as int, indices: ids@ },
        ),
{
    let g = StopNgram::new(key, w, ids);
    cands.push(g);
}

fn push_uni_gram(cands: &mut Vec<StopNgram>, key: String, w: u128, x: usize)
    ensures
        grams(final(cands)@) == grams(old(cands)@).push(uni_gram(key@, w as int, x)),
{
    let ids = vec![x];
    assert(ids@ =~= seq![x]);
    push_gram(cands, key, w, ids);
}

fn push_duo_gram(cands: &mut Vec<StopNgram>, ka: &str, kb: &str, w: u128, a: usize, b: usize)
    ensures
        grams(final(cands)@) == grams(old(cands)@).push(duo_gram(ka@, kb@, w as int, a, b)),
{
    let ids = vec![a, b];
    push_gram(cands, bow2(ka, kb), w, ids);
}

fn push_trio_gram(
    cands: &mut Vec<StopNgram>,
    ka: &str,
    kb: &str,
    kc: &str,
    w: u128,
    a: usize,
    b: usize,
    c: usize,
)
    ensures
        grams(final(cands)@) == grams(old(cands)@).push(
            trio_gram(ka@, kb@, kc@, w as int, a, b, c),
        ),
{
    let ids = vec![a, b, c];
    push_gram(cands, bow3(ka, kb, kc), w, ids);
}

fn alternate(synonyms: &FnvHashMap<usize, String>, mode: ParseMode, x: usize) -> (r: Option<
    String,
>)
    ensures
        match r {
            Some(alt) => has_alt(overlay_map(*synonyms), mode, x) && alt@ == overlay_map(
                *synonyms,
            )[x],
            None => !has_alt(overlay_map(*synonyms), mode, x),
        },
{
    if mode == ParseMode::Search {
        overlay_get(synonyms, x)
    } else {
        None
    }
}

fn push_uni(
    cands: &mut Vec<StopNgram>,
    words: &Vec<String>,
    rels: &Vec<u128>,
    synonyms: &FnvHashMap<usize, String>,
    mode: ParseMode,
    x: usize,
)
    requires
        words.len() == rels.len(),
        x < words.len(),
        weights_within(rels@, MAX_WEIGHT as int),
    ensures
        grams(final(cands)@) == grams(old(cands)@) + uni_cands(
            texts(words@),
            rels@,
            overlay_map(*synonyms),
            mode,
            x,
        ),
{
    let w = 100 * rels[x];
    push_uni_gram(cands, words[x].clone(), w, x);
    match alternate(synonyms, mode, x) {
        Some(alt) => {
            push_uni_gram(cands, alt, w, x);
        },
        None => {},
    }
}

fn push_duo(
    cands: &mut Vec<StopNgram>,
    words: &Vec<String>,
    rels: &Vec<u128>,
    synonyms: &FnvHashMap<usize, String>,
    mode: ParseMode,
    a: usize,
    b: usize,
)
    requires
        words.len() == rels.len(),
        a < words.len(),
        b < words.len(),
        weights_within(rels@, MAX_WEIGHT as int),
    ensures
        grams(final(cands)@) == grams(old(cands)@) + duo_cands(
            texts(words@),
            rels@,
            overlay_map(*synonyms),
            mode,
            a,
            b,
        ),
{
    let w = 100 * (rels[a] + rels[b]);
    push_duo_gram(cands, words[a].as_str(), words[b].as_str(), w, a, b);
    match alternate(synonyms, mode, a) {
        Some(alt) => {
            push_duo_gram(cands, alt.as_str(), words[b].as_str(), w, a, b);
        },
        None => {},
    }
}

fn push_trio(
    cands: &mut Vec<StopNgram>,
    words: &Vec<String>,
    rels: &Vec<u128>,
    synonyms: &FnvHashMap<usize, String>,
    mode: ParseMode,
    a: usize,
    b: usize,
    c: usize,
)
    requires
        words.len() == rels.len(),
        a < words.len(),
        b < words.len(),
        c < words.len(),
        weights_within(rels@, MAX_WEIGHT as int),
    ensures
        grams(final(cands)@) == grams(old(cands)@) + trio_cands(
            texts(words@),
            rels@,
            overlay_map(*synonyms),
            mode,
            a,
            b,
            c,
        ),
{
    let w = 100 * (rels[a] + rels[b] + rels[c]);
    push_trio_gram(
        cands,
        words[a].as_str(),
        words[b].as_str(),
        words[c].as_str(),
        w,
        a,
        b,
        c,
    );
    match alternate(synonyms, mode, a) {
        Some(alt) => {
            push_trio_gram(cands, alt.as_str(), words[b].as_str(), words[c].as_str(), w, a, b, c);
        },
        None => {},
    }
}

fn push_spread(
    cands: &mut Vec<StopNgram>,
    words: &Vec<String>,
    rels: &Vec<u128>,
    synonyms: &FnvHashMap<usize, String>,
    mode: ParseMode,
    a: usize,
    b: usize,
    c: usize,
)
    requires
        words.len() == rels.len(),
        a < words.len(),
        b < words.len(),
        c < words.len(),
        weights_within(rels@, MAX_WEIGHT as int),
    ensures
        grams(final(cands)@) == grams(old(cands)@) + spread_cands(
            texts(words@),
            rels@,
            overlay_map(*synonyms),
            mode,
            a,
            b,
            c,
        ),
{
    let wb = 100 * (rels[a] + rels[b]);
    let wc = 100 * (rels[a] + rels[c]);
    push_duo_gram(cands, words[a].as_str(), words[b].as_str(), wb, a, b);
    push_duo_gram(cands, words[a].as_str(), words[c].as_str(), wc, a, c);
    match alternate(synonyms, mode, a) {
        Some(alt) => {
            push_duo_gram(cands, alt.as_str(), words[b].as_str(), wb, a, b);
            push_duo_gram(cands, alt.as_str(), words[c].as_str(), wc, a, c);
        },
        None => {},
    }
}

/// The two lists of indices, one after the other.
pub fn concat_indices(a: &Vec<usize>, b: &Vec<usize>) -> (r: Vec<usize>)
    ensures
        r@ == a@ + b@,
{
    let mut r = clone_indices(a);
    let mut p: usize = 0;
    while p < b.len()
        invariant
            p <= b.len(),
            r@ == a@ + b@.take(p as int),
        decreases b.len() - p,
    {
        r.push(b[p]);
        p += 1;
    }
    r
}

fn push_self_cands(
    cands: &mut Vec<StopNgram>,
    list: &StopNgrams,
    words_len: usize,
    norm: u128,
    i: usize,
)
    requires
        list.wf(),
        i < list.ngrams.len(),
        list_within(list@, MAX_GRAM_WEIGHT as int),
        words_len <= WORDS_PER_QUERY,
        norm <= MAX_NORM,
    ensures
        grams(final(cands)@) == grams(old(cands)@) + self_cands(
            list@,
            words_len as int,
            norm as int,
            i as int,
        ),
{
    let ghost start = grams(cands@);
    let g = &list.ngrams[i];
    assert(g@ == list@.grams[i as int]);
    assert(5 * g.relev * (words_len as u128) <= 75 * MAX_GRAM_WEIGHT) by (nonlinear_arith)
        requires
            g.relev <= MAX_GRAM_WEIGHT,
            words_len <= 15,
    ;
    if g.word_indices.len() > 1 && 5 * g.relev * (words_len as u128) > 9 * norm {
        push_gram(cands, g.ngram.clone(), 100 * g.relev, clone_indices(&g.word_indices));
        let ghost first = start.push(scaled(g@));
        match variants_get(&list.synonyms, i) {
            Some(alts) => {
                let mut q: usize = 0;
                while q < alts.len()
                    invariant
                        q <= alts.len(),
                        grams(alts@) == list@.alts[i as int],
                        i < list@.alts.len(),
                        list_within(list@, MAX_GRAM_WEIGHT as int),
                        grams(cands@) == first + scaled_all(grams(alts@), q as int),
                    decreases alts.len() - q,
                {
                    let a = &alts[q];
                    assert(a@ == list@.alts[i as int][q as int]);
                    push_gram(
                        cands,
                        a.ngram.clone(),
                        100 * a.relev,
                        clone_indices(&a.word_indices),
                    );
                    q += 1;
                }
            },
            None => {},
        }
    }
}

fn push_pair_cands(
    cands: &mut Vec<StopNgram>,
    list: &StopNgrams,
    words_len: usize,
    norm: u128,
    i: usize,
    j: usize,
)
    requires
        list.wf(),
        i < j < list.ngrams.len(),
        list_within(list@, MAX_GRAM_WEIGHT as int),
        words_len <= WORDS_PER_QUERY,
        norm <= MAX_NORM,
    ensures
        grams(final(cands)@) == grams(old(cands)@) + pair_cands(
            list@,
            words_len as int,
            norm as int,
            i as int,
            j as int,
        ),
{
    let gi = &list.ngrams[i];
    let gj = &list.ngrams[j];
    assert(gi@ == list@.grams[i as int]);
    assert(gj@ == list@.grams[j as int]);
    let step = j - i - 1;
    let factor: u128 = if step < 100 {
        (100 - step) as u128
    } else {
        0
    };
    let sum = gi.relev + gj.relev;
    assert(factor * sum <= 200 * MAX_GRAM_WEIGHT) by (nonlinear_arith)
        requires
            factor <= 100,
            sum <= 2 * MAX_GRAM_WEIGHT,
    ;
    let w = factor * sum;
    assert(w * (words_len as u128) <= 3000 * MAX_GRAM_WEIGHT) by (nonlinear_arith)
        requires
            w <= 200 * MAX_GRAM_WEIGHT,
            words_len <= 15,
    ;
    if step < 3 || w * (words_len as u128) >= 180 * norm {
        push_gram(
            cands,
            bow2(gi.ngram.as_str(), gj.ngram.as_str()),
            w,
            concat_indices(&gi.word_indices, &gj.word_indices),
        );
        let ghost first = grams(cands@);
        match variants_get(&list.synonyms, i) {
            Some(lefts) => {
                let mut q: usize = 0;
                while q < lefts.len()
                    invariant
                        q <= lefts.len(),
                        grams(cands@) == first + left_variants(
                            grams(lefts@),
                            gj@,
                            w as int,
                            q as int,
                        ),
                    decreases lefts.len() - q,
                {
                    let a = &lefts[q];
                    push_gram(
                        cands,
                        bow2(a.ngram.as_str(), gj.ngram.as_str()),
                        w,
                        concat_indices(&a.word_indices, &gj.word_indices),
                    );
                    q += 1;
                }
            },
            None => {},
        }
        let ghost second = grams(cands@);
        match variants_get(&list.synonyms, j) {
            Some(rights) => {
                let mut q: usize = 0;
                while q < rights.len()
                    invariant
                        q <= rights.len(),
                        grams(cands@) == second + right_variants(
                            gi@,
                            grams(rights@),
                            w as int,
                            q as int,
                        ),
                    decreases rights.len() - q,
                {
                    let b = &rights[q];
                    push_gram(
                        cands,
                        bow2(gi.ngram.as_str(), b.ngram.as_str()),
                        w,
                        concat_indices(&b.word_indices, &gi.word_indices),
                    );
                    q += 1;
                }
            },
            None => {},
        }
    }
}

fn push_row_cands(
    cands: &mut Vec<StopNgram>,
    list: &StopNgrams,
    words_len: usize,
    norm: u128,
    i: usize,
)
    requires
        list.wf(),
        i < list.ngrams.len(),
        list_within(list@, MAX_GRAM_WEIGHT as int),
        words_len <= WORDS_PER_QUERY,
        norm <= MAX_NORM,
    ensures
        grams(final(cands)@) == grams(old(cands)@) + row_cands(
            list@,
            words_len as int,
            norm as int,
            i as int,
            list@.grams.len() as int,
        ),
{
    let ghost start = grams(cands@);
    let n = list.ngrams.len();
    let mut blocked = false;
    let mut j: usize = i + 1;
    while j < n
        invariant
            i < j <= n,
            n == list.ngrams.len(),
            list.wf(),
            list_within(list@, MAX_GRAM_WEIGHT as int),
            words_len <= WORDS_PER_QUERY,
            norm <= MAX_NORM,
            blocked == blocked_upto(list@, i as int, j - 1),
            grams(cands@) == start + row_cands(
                list@,
                words_len as int,
                norm as int,
                i as int,
                j as int,
            ),
        decreases n - j,
    {
        if list.ngrams[i].ngram == list.ngrams[j].ngram {
            blocked = true;
        }
        if !blocked {
            push_pair_cands(cands, list, words_len, norm, i, j);
        }
        j += 1;
    }
}

fn push_stop_cands(cands: &mut Vec<StopNgram>, list: &StopNgrams, words_len: usize, norm: u128)
    requires
        list.wf(),
        list_within(list@, MAX_GRAM_WEIGHT as int),
        words_len <= WORDS_PER_QUERY,
        norm <= MAX_NORM,
    ensures
        grams(final(cands)@) == grams(old(cands)@) + stop_cands(
            list@,
            words_len as int,
            norm as int,
            list@.grams.len() as int,
        ),
{
    let ghost start = grams(cands@);
    let n = list.ngrams.len();
    let mut i: usize = 0;
    while i < n
        invariant
            i <= n,
            n == list.ngrams.len(),
            list.wf(),
            list_within(list@, MAX_GRAM_WEIGHT as int),
            words_len <= WORDS_PER_QUERY,
            norm <= MAX_NORM,
            grams(cands@) == start + stop_cands(list@, words_len as int, norm as int, i as int),
        decreases n - i,
    {
        push_self_cands(cands, list, words_len, norm, i);
        push_row_cands(cands, list, words_len, norm, i);
        i += 1;
    }
}

fn push_head_cands(
    cands: &mut Vec<StopNgram>,
    words: &Vec<String>,
    rels: &Vec<u128>,
    order: &Vec<usize>,
    must_word: usize,
    synonyms: &FnvHashMap<usize, String>,
    mode: ParseMode,
)
    requires
        2 <= words.len() <= WORDS_PER_QUERY,
        words.len() == rels.len(),
        order.len() == words.len(),
        indices_within(order@, words.len() as int),
        weights_within(rels@, MAX_WEIGHT as int),
    ensures
        grams(final(cands)@) == grams(old(cands)@) + first_cands(
            texts(words@),
            rels@,
            order@,
            overlay_map(*synonyms),
            mode,
        ) + second_cands(texts(words@), rels@, order@, overlay_map(*synonyms), mode) + must_cands(
            texts(words@),
            rels@,
            must_word as int,
            overlay_map(*synonyms),
            mode,
        ),
{
    let len = words.len();
    let t0 = order[0];
    let t1 = order[1];
    let w0 = rels[t0];
    let w1 = rels[t1];
    if len < 4 || 2 * w0 > 3 * w1 {
        push_uni(cands, words, rels, synonyms, mode, t0);
    }
    if 5 * w1 > 4 * w0 {
        push_uni(cands, words, rels, synonyms, mode, t1);
    }
    if must_word < len && len < 5 && mode == ParseMode::Search {
        push_uni(cands, words, rels, synonyms, mode, must_word);
    }
}

fn push_top_cands(
    cands: &mut Vec<StopNgram>,
    words: &Vec<String>,
    rels: &Vec<u128>,
    norm: u128,
    order: &Vec<usize>,
    synonyms: &FnvHashMap<usize, String>,
    mode: ParseMode,
)
    requires
        2 <= words.len() <= WORDS_PER_QUERY,
        words.len() == rels.len(),
        order.len() == words.len(),
        indices_within(order@, words.len() as int),
        weights_within(rels@, MAX_WEIGHT as int),
    ensures
        grams(final(cands)@) == grams(old(cands)@) + top_cands(
            texts(words@),
            rels@,
            norm as int,
            order@,
            overlay_map(*synonyms),
            mode,
        ),
{
    let len = words.len();
    if len > 3 {
        let t0 = order[0];
        let t1 = order[1];
        let t2 = order[2];
        let last = order[len - 1];
        let w0 = rels[t0];
        push_trio(cands, words, rels, synonyms, mode, t0, t1, t2);
        let m: u128 = (len - 1) as u128;
        assert(w0 * m <= 15 * MAX_WEIGHT) by (nonlinear_arith)
            requires
                w0 <= MAX_WEIGHT,
                m <= 15,
        ;
        if w0 * m <= norm {
            push_duo(cands, words, rels, synonyms, mode, t0, last);
        } else {
            push_spread(cands, words, rels, synonyms, mode, t1, last, t2);
        }
    }
}

fn push_closing_cands(
    cands: &mut Vec<StopNgram>,
    words: &Vec<String>,
    rels: &Vec<u128>,
    order: &Vec<usize>,
    synonyms: &FnvHashMap<usize, String>,
    mode: ParseMode,
)
    requires
        2 <= words.len() <= WORDS_PER_QUERY,
        words.len() == rels.len(),
        order.len() == words.len(),
        indices_within(order@, words.len() as int),
        weights_within(rels@, MAX_WEIGHT as int),
    ensures
        grams(final(cands)@) == grams(old(cands)@) + closing_cands(
            texts(words@),
            rels@,
            order@,
            overlay_map(*synonyms),
            mode,
        ),
{
    let len = words.len();
    if len >= 3 {
        push_duo(cands, words, rels, synonyms, mode, order[0], order[1]);
    }
    if len >= 4 {
        push_duo(cands, words, rels, synonyms, mode, order[0], order[2]);
    }
}

/// No n-grams: no keys, no weights, no token indices.
pub fn no_ngrams() -> (r: (Vec<String>, Vec<u128>, FnvHashMap<String, Vec<usize>>))
    ensures
        r.0.len() == 0,
        r.1.len() == 0,
        indexed(r.0@, ids_map(r.2)),
        listed(r.0@, r.1@, ids_map(r.2)) == Seq::<Gram>::empty(),
{
    let ngrams: Vec<String> = Vec::new();
    let relevs: Vec<u128> = Vec::new();
    let ngrams_ids = ids_new();
    assert(listed(ngrams@, relevs@, ids_map(ngrams_ids)) =~= Seq::empty());
    assert forall|k: Seq<char>| !ids_map(ngrams_ids).contains_key(k) by {
        assert(!ids_map(ngrams_ids).dom().contains(k));
    }
    (ngrams, relevs, ngrams_ids)
}

/// The n-grams in order, each key once: the first with a key stays.
pub fn first_of_each_key(cands: &Vec<StopNgram>) -> (r: (
    Vec<String>,
    Vec<u128>,
    FnvHashMap<String, Vec<usize>>,
))
    ensures
        r.0.len() == r.1.len(),
        indexed(r.0@, ids_map(r.2)),
        listed(r.0@, r.1@, ids_map(r.2)) == added_all(Seq::empty(), grams(cands@)),
        distinct_keys(listed(r.0@, r.1@, ids_map(r.2))),
{
    let (mut ngrams, mut relevs, mut ngrams_ids) = no_ngrams();
    let ghost all = grams(cands@);
    let mut p: usize = 0;
    while p < cands.len()
        invariant
            p <= cands.len(),
            all == grams(cands@),
            ngrams.len() == relevs.len(),
            indexed(ngrams@, ids_map(ngrams_ids)),
            listed(ngrams@, relevs@, ids_map(ngrams_ids)) == added_all(
                Seq::empty(),
                all.take(p as int),
            ),
        decreases cands.len() - p,
    {
        let c = &cands[p];
        assert(all.take(p + 1).drop_last() =~= all.take(p as int));
        assert(all.take(p + 1).last() == c@);
        update(
            &mut ngrams,
            &mut relevs,
            &mut ngrams_ids,
            c.ngram.clone(),
            c.relev,
            clone_indices(&c.word_indices),
        );
        p += 1;
    }
    proof {
        assert(all.take(cands.len() as int) =~= all);
        lemma_added_all_distinct(Seq::empty(), all);
    }
    (ngrams, relevs, ngrams_ids)
}

/// The n-grams of a query of two tokens or more, from its tokens, their
/// weights over `norm`, the seed of must-haves, the tokens that hold a number,
/// its stop-n-grams and its alternates. Returns the keys, their weights over a
/// hundred times `norm`, their token indices, and the must-have indices.
pub fn compose(
    words: &Vec<String>,
    rels: &Vec<u128>,
    norm: u128,
    must_have: &Vec<usize>,
    numerics: &FnvHashSet<usize>,
    stop_ngrams: &StopNgrams,
    synonyms: &FnvHashMap<usize, String>,
    mode: ParseMode,
) -> (r: (Vec<String>, Vec<u128>, FnvHashMap<String, Vec<usize>>, Vec<usize>))
    requires
        2 <= words.len() <= WORDS_PER_QUERY,
        words.len() == rels.len(),
        weights_within(rels@, MAX_WEIGHT as int),
        norm <= MAX_NORM,
        stop_ngrams.wf(),
        list_within(stop_ngrams@, MAX_GRAM_WEIGHT as int),
    ensures
        r.0.len() == r.1.len(),
        indexed(r.0@, ids_map(r.2)),
        listed(r.0@, r.1@, ids_map(r.2)) == composed(
            texts(words@),
            rels@,
            norm as int,
            must_have@,
            index_set(*numerics),
            stop_ngrams@,
            overlay_map(*synonyms),
            mode,
        ),
        distinct_keys(listed(r.0@, r.1@, ids_map(r.2))),
        r.3@.no_duplicates(),
        r.3@.to_set() == must_choice(
            weight_order(rels@),
            rels@,
            norm as int,
            must_have@,
            index_set(*numerics),
            words.len() as int,
        ).have,
{
    let len = words.len();
    let order = sort_by_weight(rels);
    let (must_word, have) = find_must_have_words(&order, rels, norm, must_have, numerics, len);
    let mut cands: Vec<StopNgram> = Vec::new();
    push_stop_cands(&mut cands, stop_ngrams, len, norm);
    push_head_cands(&mut cands, words, rels, &order, must_word, synonyms, mode);
    push_top_cands(&mut cands, words, rels, norm, &order, synonyms, mode);
    push_closing_cands(&mut cands, words, rels, &order, synonyms, mode);
    let (ngrams, relevs, ngrams_ids) = first_of_each_key(&cands);
    (ngrams, relevs, ngrams_ids, have)
}

} // verus!
