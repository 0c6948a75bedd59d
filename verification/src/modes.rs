use crate::bow::{bag_key, lemma_bag_key_of_one, lemma_bag_key_of_three, lemma_bag_key_of_two};
use crate::compose::{
    added, added_all, blocked_upto, candidates, closing_cands, duo_cands, first_cands, has_key,
    must_cands, pair_cands, row_cands, second_cands, self_cands, spread_cands, stop_cands,
    top_cands, trio_cands, uni_cands,
};
use crate::model::{Gram, ParseMode};
use crate::must::must_choice;
use crate::parse::parsed;
use crate::rank::weight_order;
use crate::scan::{
    drained, keyed, lemma_stop_list_keyed, scanned, step, stop_flags, stop_list, Scan,
};
use crate::stopgrams::{lemma_variants_are_of_their_ngram, picked, variants_for, StopList};
use crate::text::normalized;
use crate::tokens::{overlay_of, tokens_of};
use crate::weights::{classes, half_weights, is_stop, raw_weight, total_upto};
use vstd::prelude::*;

verus! {

/// No alternate weighs more than the token it stands for: each token is a
/// stop word, has no alternate, or weighs at least what its alternate weighs.
pub open spec fn light_alternates(
    tokens: Seq<Seq<char>>,
    tw: Map<Seq<char>, u64>,
    stops: Set<Seq<char>>,
    ov: Map<usize, Seq<char>>,
) -> bool {
    forall|i: int|
        0 <= i < tokens.len() && #[trigger] ov.contains_key(i as usize) && !is_stop(
            stops,
            tokens[i],
        ) ==> raw_weight(tw, ov[i as usize]) <= raw_weight(tw, tokens[i])
}

/// The tokens of a query do not depend on the mode.
pub proof fn lemma_tokens_same_in_both_modes(
    q: Seq<char>,
    dict: Option<Map<Seq<char>, Seq<char>>>,
    topo: Option<Set<Seq<char>>>,
    stops: Set<Seq<char>>,
    tw: Map<Seq<char>, u64>,
)
    ensures
        parsed(q, dict, topo, stops, tw, ParseMode::Index).tokens == parsed(
            q,
            dict,
            topo,
            stops,
            tw,
            ParseMode::Search,
        ).tokens,
        parsed(q, dict, topo, stops, tw, ParseMode::Index).tokens == tokens_of(normalized(q)),
{
}

/// Light alternates leave the sum of the weights as it is without them.
pub proof fn lemma_total_without_alternates(
    tokens: Seq<Seq<char>>,
    tw: Map<Seq<char>, u64>,
    stops: Set<Seq<char>>,
    ov: Map<usize, Seq<char>>,
    n: int,
)
    requires
        light_alternates(tokens, tw, stops, ov),
        n <= tokens.len(),
    ensures
        total_upto(tokens, tw, stops, ov, n) == total_upto(tokens, tw, stops, Map::empty(), n),
    decreases n,
{
    if n > 0 {
        lemma_total_without_alternates(tokens, tw, stops, ov, n - 1);
    }
}

/// Light alternates leave the classes of the tokens as they are without them.
pub proof fn lemma_classes_without_alternates(
    tokens: Seq<Seq<char>>,
    tw: Map<Seq<char>, u64>,
    stops: Set<Seq<char>>,
    ov: Map<usize, Seq<char>>,
    topo: Option<Set<Seq<char>>>,
    dict: Option<Map<Seq<char>, Seq<char>>>,
)
    requires
        light_alternates(tokens, tw, stops, ov),
    ensures
        classes(tokens, tw, stops, ov, topo, dict) == classes(
            tokens,
            tw,
            stops,
            Map::empty(),
            topo,
            dict,
        ),
{
    lemma_total_without_alternates(tokens, tw, stops, ov, tokens.len() as int);
    assert(half_weights(tokens, tw, stops, ov) =~= half_weights(tokens, tw, stops, Map::empty()));
}

/// The must-have tokens of a query are the same in both modes, where no
/// alternate of a search weighs more than its token.
pub proof fn lemma_must_have_same_in_both_modes(
    q: Seq<char>,
    dict: Option<Map<Seq<char>, Seq<char>>>,
    topo: Option<Set<Seq<char>>>,
    stops: Set<Seq<char>>,
    tw: Map<Seq<char>, u64>,
)
    requires
        light_alternates(
            tokens_of(normalized(q)),
            tw,
            stops,
            overlay_of(normalized(q), dict, ParseMode::Search),
        ),
    ensures
        parsed(q, dict, topo, stops, tw, ParseMode::Index).must_have == parsed(
            q,
            dict,
            topo,
            stops,
            tw,
            ParseMode::Search,
        ).must_have,
{
    let tokens = tokens_of(normalized(q));
    let ov = overlay_of(normalized(q), dict, ParseMode::Search);
    lemma_classes_without_alternates(tokens, tw, stops, ov, topo, dict);
}

/// Two states of the walk over the stop words that differ in the variants
/// only, the second being one of indexing and so without variants.
pub open spec fn same_walk(a: Scan, b: Scan) -> bool {
    &&& a.list.grams == b.list.grams
    &&& a.linked == b.linked
    &&& a.skip == b.skip
    &&& b.list.mode == ParseMode::Index
    &&& b.list.alts.len() == b.list.grams.len()
    &&& forall|p: int| 0 <= p < b.list.alts.len() ==> (#[trigger] b.list.alts[p]).len() == 0
}

/// Draining keeps two states the same but for the variants.
pub proof fn lemma_drained_same(
    a: Scan,
    b: Scan,
    tokens: Seq<Seq<char>>,
    rels: Seq<u128>,
    ova: Map<usize, Seq<char>>,
    ovb: Map<usize, Seq<char>>,
    word_idx: Seq<usize>,
    bound: int,
    n: int,
)
    requires
        same_walk(a, b),
    ensures
        same_walk(
            drained(a, tokens, rels, ova, word_idx, bound, n),
            drained(b, tokens, rels, ovb, word_idx, bound, n),
        ),
    decreases n,
{
    if n > 0 {
        lemma_drained_same(a, b, tokens, rels, ova, ovb, word_idx, bound, n - 1);
    }
}

/// A step keeps two states the same but for the variants.
pub proof fn lemma_step_same(
    a: Scan,
    b: Scan,
    tokens: Seq<Seq<char>>,
    rels: Seq<u128>,
    word_idx: Seq<usize>,
    stops: Seq<bool>,
    ova: Map<usize, Seq<char>>,
    ovb: Map<usize, Seq<char>>,
    i: int,
)
    requires
        same_walk(a, b),
    ensures
        same_walk(
            step(a, tokens, rels, word_idx, stops, ova, i),
            step(b, tokens, rels, word_idx, stops, ovb, i),
        ),
{
    lemma_drained_same(a, b, tokens, rels, ova, ovb, word_idx, i - 1, word_idx.len() as int);
}

/// The walk of a search and the walk of indexing make the same n-grams.
pub proof fn lemma_scanned_same(
    tokens: Seq<Seq<char>>,
    rels: Seq<u128>,
    word_idx: Seq<usize>,
    stop_idx: Seq<usize>,
    ova: Map<usize, Seq<char>>,
    ovb: Map<usize, Seq<char>>,
    mode: ParseMode,
    n: int,
)
    ensures
        same_walk(
            scanned(tokens, rels, word_idx, stop_idx, ova, mode, n),
            scanned(tokens, rels, word_idx, stop_idx, ovb, ParseMode::Index, n),
        ),
    decreases n,
{
    if n > 0 {
        lemma_scanned_same(tokens, rels, word_idx, stop_idx, ova, ovb, mode, n - 1);
        lemma_step_same(
            scanned(tokens, rels, word_idx, stop_idx, ova, mode, n - 1),
            scanned(tokens, rels, word_idx, stop_idx, ovb, ParseMode::Index, n - 1),
            tokens,
            rels,
            word_idx,
            stop_flags(stop_idx, tokens.len() as int),
            ova,
            ovb,
            stop_idx[n - 1] as int,
        );
    }
}

/// The stop-n-grams of a query are the same in both modes; those of
/// indexing have no variants.
pub proof fn lemma_stop_list_same(
    tokens: Seq<Seq<char>>,
    rels: Seq<u128>,
    word_idx: Seq<usize>,
    stop_idx: Seq<usize>,
    ov: Map<usize, Seq<char>>,
    mode: ParseMode,
)
    ensures
        stop_list(tokens, rels, word_idx, stop_idx, ov, mode).grams == stop_list(
            tokens,
            rels,
            word_idx,
            stop_idx,
            Map::empty(),
            ParseMode::Index,
        ).grams,
        no_variants(stop_list(tokens, rels, word_idx, stop_idx, Map::empty(), ParseMode::Index)),
{
    let ovb = Map::<usize, Seq<char>>::empty();
    lemma_scanned_same(tokens, rels, word_idx, stop_idx, ov, ovb, mode, stop_idx.len() as int);
    lemma_drained_same(
        scanned(tokens, rels, word_idx, stop_idx, ov, mode, stop_idx.len() as int),
        scanned(tokens, rels, word_idx, stop_idx, ovb, ParseMode::Index, stop_idx.len() as int),
        tokens,
        rels,
        ov,
        ovb,
        word_idx,
        tokens.len() as int,
        word_idx.len() as int,
    );
}

/// The list has a place for the variants of each n-gram, and none has any.
pub open spec fn no_variants(list: StopList) -> bool {
    &&& list.alts.len() == list.grams.len()
    &&& forall|p: int| 0 <= p < list.alts.len() ==> (#[trigger] list.alts[p]).len() == 0
}

/// A key is in a list made of two when it is in one of the two.
pub proof fn lemma_has_key_concat(a: Seq<Gram>, b: Seq<Gram>, k: Seq<char>)
    ensures
        has_key(a + b, k) <==> (has_key(a, k) || has_key(b, k)),
{
    if has_key(a + b, k) {
        let i = choose|i: int| 0 <= i < (a + b).len() && (#[trigger] (a + b)[i]).key == k;
        assert(i < a.len() ==> a[i].key == k);
        assert(i >= a.len() ==> b[i - a.len()].key == k);
    }
    if has_key(a, k) {
        let i = choose|i: int| 0 <= i < a.len() && (#[trigger] a[i]).key == k;
        assert((a + b)[i].key == k);
    }
    if has_key(b, k) {
        let i = choose|i: int| 0 <= i < b.len() && (#[trigger] b[i]).key == k;
        assert((a + b)[a.len() + i].key == k);
    }
}

/// A key is in a list after an n-gram was added when it was there before or
/// is the key of the n-gram.
pub proof fn lemma_has_key_added(out: Seq<Gram>, g: Gram, k: Seq<char>)
    ensures
        has_key(added(out, g), k) <==> (has_key(out, k) || g.key == k),
{
    if !has_key(out, g.key) {
        let r = out.push(g);
        if has_key(r, k) {
            let i = choose|i: int| 0 <= i < r.len() && (#[trigger] r[i]).key == k;
            assert(i < out.len() ==> out[i].key == k);
        }
        if has_key(out, k) {
            let i = choose|i: int| 0 <= i < out.len() && (#[trigger] out[i]).key == k;
            assert(r[i].key == k);
        }
        if g.key == k {
            assert(r[out.len() as int].key == k);
        }
    }
}

/// A key is in a list after n-grams were added in turn when it was there
/// before or is the key of one of them.
pub proof fn lemma_has_key_added_all(out: Seq<Gram>, gs: Seq<Gram>, k: Seq<char>)
    ensures
        has_key(added_all(out, gs), k) <==> (has_key(out, k) || has_key(gs, k)),
    decreases gs.len(),
{
    if gs.len() > 0 {
        lemma_has_key_added_all(out, gs.drop_last(), k);
        lemma_has_key_added(added_all(out, gs.drop_last()), gs.last(), k);
        assert(gs =~= gs.drop_last() + seq![gs.last()]);
    }
}

/// Lists with the same n-grams block the same pairs.
pub proof fn lemma_blocked_same(a: StopList, b: StopList, i: int, j: int)
    requires
        a.grams == b.grams,
    ensures
        blocked_upto(a, i, j) == blocked_upto(b, i, j),
    decreases j - i,
{
    if j > i {
        lemma_blocked_same(a, b, i, j - 1);
    }
}

/// What a pair of stop-n-grams offers when indexing, it offers in a search.
pub proof fn lemma_pair_covers(
    a: StopList,
    b: StopList,
    len: int,
    norm: int,
    i: int,
    j: int,
    k: Seq<char>,
)
    requires
        a.grams == b.grams,
        no_variants(b),
        0 <= i < j < b.grams.len(),
    ensures
        has_key(pair_cands(b, len, norm, i, j), k) ==> has_key(pair_cands(a, len, norm, i, j), k),
{
    if has_key(pair_cands(b, len, norm, i, j), k) {
        assert(pair_cands(a, len, norm, i, j)[0].key == k);
    }
}

/// What the pairs of a stop-n-gram offer when indexing, they offer in a
/// search.
pub proof fn lemma_row_covers(
    a: StopList,
    b: StopList,
    len: int,
    norm: int,
    i: int,
    m: int,
    k: Seq<char>,
)
    requires
        a.grams == b.grams,
        no_variants(b),
        0 <= i,
        m <= b.grams.len(),
    ensures
        has_key(row_cands(b, len, norm, i, m), k) ==> has_key(row_cands(a, len, norm, i, m), k),
    decreases m - i,
{
    if m > i + 1 {
        lemma_row_covers(a, b, len, norm, i, m - 1, k);
        lemma_blocked_same(a, b, i, m - 1);
        lemma_pair_covers(a, b, len, norm, i, m - 1, k);
        lemma_has_key_concat(
            row_cands(a, len, norm, i, m - 1),
            pair_cands(a, len, norm, i, m - 1),
            k,
        );
    }
}

/// What a stop-n-gram offers by itself when indexing, it offers in a search.
pub proof fn lemma_self_covers(
    a: StopList,
    b: StopList,
    len: int,
    norm: int,
    i: int,
    k: Seq<char>,
)
    requires
        a.grams == b.grams,
        no_variants(b),
        0 <= i < b.grams.len(),
    ensures
        has_key(self_cands(b, len, norm, i), k) ==> has_key(self_cands(a, len, norm, i), k),
{
    if has_key(self_cands(b, len, norm, i), k) {
        assert(self_cands(a, len, norm, i)[0].key == k);
    }
}

/// What the stop-n-grams offer when indexing, they offer in a search.
pub proof fn lemma_stop_covers(
    a: StopList,
    b: StopList,
    len: int,
    norm: int,
    n: int,
    k: Seq<char>,
)
    requires
        a.grams == b.grams,
        no_variants(b),
        n <= b.grams.len(),
    ensures
        has_key(stop_cands(b, len, norm, n), k) ==> has_key(stop_cands(a, len, norm, n), k),
    decreases n,
{
    if n > 0 {
        lemma_stop_covers(a, b, len, norm, n - 1, k);
        lemma_self_covers(a, b, len, norm, n - 1, k);
        lemma_row_covers(a, b, len, norm, n - 1, b.grams.len() as int, k);
        let a1 = stop_cands(a, len, norm, n - 1);
        let a2 = self_cands(a, len, norm, n - 1);
        let a3 = row_cands(a, len, norm, n - 1, a.grams.len() as int);
        lemma_has_key_concat(a1, a2, k);
        lemma_has_key_concat(a1 + a2, a3, k);
    }
}

/// A list that starts with the keys of another list, in their order, holds
/// every key of that list.
pub proof fn lemma_head_covers(head: Seq<Gram>, all: Seq<Gram>, k: Seq<char>)
    requires
        head.len() <= all.len(),
        forall|j: int| 0 <= j < head.len() ==> (#[trigger] all[j]).key == head[j].key,
    ensures
        has_key(head, k) ==> has_key(all, k),
{
    if has_key(head, k) {
        let j = choose|j: int| 0 <= j < head.len() && (#[trigger] head[j]).key == k;
        assert(all[j].key == k);
    }
}

/// What the tokens offer when indexing, they offer in a search: a search
/// offers the same and, behind it, the same with alternates.
pub proof fn lemma_words_cover(
    tokens: Seq<Seq<char>>,
    rels: Seq<u128>,
    norm: int,
    order: Seq<usize>,
    must_word: int,
    ov: Map<usize, Seq<char>>,
    k: Seq<char>,
)
    ensures
        has_key(first_cands(tokens, rels, order, Map::empty(), ParseMode::Index), k) ==> has_key(
            first_cands(tokens, rels, order, ov, ParseMode::Search),
            k,
        ),
        has_key(second_cands(tokens, rels, order, Map::empty(), ParseMode::Index), k) ==> has_key(
            second_cands(tokens, rels, order, ov, ParseMode::Search),
            k,
        ),
        !has_key(must_cands(tokens, rels, must_word, Map::empty(), ParseMode::Index), k),
        has_key(top_cands(tokens, rels, norm, order, Map::empty(), ParseMode::Index), k)
            ==> has_key(top_cands(tokens, rels, norm, order, ov, ParseMode::Search), k),
        has_key(closing_cands(tokens, rels, order, Map::empty(), ParseMode::Index), k)
            ==> has_key(closing_cands(tokens, rels, order, ov, ParseMode::Search), k),
{
    let none = Map::<usize, Seq<char>>::empty();
    let index = ParseMode::Index;
    let search = ParseMode::Search;
    let len = tokens.len() as int;
    lemma_head_covers(
        first_cands(tokens, rels, order, none, index),
        first_cands(tokens, rels, order, ov, search),
        k,
    );
    lemma_head_covers(
        second_cands(tokens, rels, order, none, index),
        second_cands(tokens, rels, order, ov, search),
        k,
    );
    lemma_head_covers(
        must_cands(tokens, rels, must_word, none, index),
        Seq::empty(),
        k,
    );
    if len > 3 {
        let trio_i = trio_cands(tokens, rels, none, index, order[0], order[1], order[2]);
        let trio_s = trio_cands(tokens, rels, ov, search, order[0], order[1], order[2]);
        let duo_i = duo_cands(tokens, rels, none, index, order[0], order[len - 1]);
        let duo_s = duo_cands(tokens, rels, ov, search, order[0], order[len - 1]);
        let spread_i = spread_cands(tokens, rels, none, index, order[1], order[len - 1], order[2]);
        let spread_s = spread_cands(tokens, rels, ov, search, order[1], order[len - 1], order[2]);
        lemma_head_covers(trio_i, trio_s, k);
        lemma_head_covers(duo_i, duo_s, k);
        lemma_head_covers(spread_i, spread_s, k);
        lemma_has_key_concat(trio_i, duo_i, k);
        lemma_has_key_concat(trio_i, spread_i, k);
        lemma_has_key_concat(trio_s, duo_s, k);
        lemma_has_key_concat(trio_s, spread_s, k);
    } else {
        lemma_head_covers(
            top_cands(tokens, rels, norm, order, none, index),
            top_cands(tokens, rels, norm, order, ov, search),
            k,
        );
    }
    let none_offered = Seq::<Gram>::empty();
    let first_i = if len >= 3 {
        duo_cands(tokens, rels, none, index, order[0], order[1])
    } else {
        none_offered
    };
    let first_s = if len >= 3 {
        duo_cands(tokens, rels, ov, search, order[0], order[1])
    } else {
        none_offered
    };
    let third_i = if len >= 4 {
        duo_cands(tokens, rels, none, index, order[0], order[2])
    } else {
        none_offered
    };
    let third_s = if len >= 4 {
        duo_cands(tokens, rels, ov, search, order[0], order[2])
    } else {
        none_offered
    };
    lemma_head_covers(first_i, first_s, k);
    lemma_head_covers(third_i, third_s, k);
    lemma_has_key_concat(first_i, third_i, k);
    lemma_has_key_concat(first_s, third_s, k);
}

/// What a query offers as n-gram when indexing, it offers in a search, where
/// both have the same weights and the same stop-n-grams.
pub proof fn lemma_candidates_cover(
    tokens: Seq<Seq<char>>,
    rels: Seq<u128>,
    norm: int,
    seed: Seq<usize>,
    numerics: Set<usize>,
    a: StopList,
    b: StopList,
    ov: Map<usize, Seq<char>>,
    k: Seq<char>,
)
    requires
        a.grams == b.grams,
        no_variants(b),
    ensures
        has_key(
            candidates(tokens, rels, norm, seed, numerics, b, Map::empty(), ParseMode::Index),
            k,
        ) ==> has_key(candidates(tokens, rels, norm, seed, numerics, a, ov, ParseMode::Search), k),
{
    let search = ParseMode::Search;
    let len = tokens.len() as int;
    let order = weight_order(rels);
    let must = must_choice(order, rels, norm, seed, numerics, len);
    lemma_stop_covers(a, b, len, norm, b.grams.len() as int, k);
    lemma_words_cover(tokens, rels, norm, order, must.word, ov, k);
    let a1 = stop_cands(a, len, norm, a.grams.len() as int);
    let a2 = first_cands(tokens, rels, order, ov, search);
    let a3 = second_cands(tokens, rels, order, ov, search);
    let a4 = must_cands(tokens, rels, must.word, ov, search);
    let a5 = top_cands(tokens, rels, norm, order, ov, search);
    let a6 = closing_cands(tokens, rels, order, ov, search);
    lemma_has_key_concat(a1, a2, k);
    lemma_has_key_concat(a1 + a2, a3, k);
    lemma_has_key_concat(a1 + a2 + a3, a4, k);
    lemma_has_key_concat(a1 + a2 + a3 + a4, a5, k);
    lemma_has_key_concat(a1 + a2 + a3 + a4 + a5, a6, k);
}

/// Every key among the n-grams of a query that is indexed is among those of
/// the same query when it is searched for, where no alternate of the search
/// weighs more than its token.
pub proof fn lemma_search_keys_cover_index_keys(
    q: Seq<char>,
    dict: Option<Map<Seq<char>, Seq<char>>>,
    topo: Option<Set<Seq<char>>>,
    stops: Set<Seq<char>>,
    tw: Map<Seq<char>, u64>,
    k: Seq<char>,
)
    requires
        light_alternates(
            tokens_of(normalized(q)),
            tw,
            stops,
            overlay_of(normalized(q), dict, ParseMode::Search),
        ),
    ensures
        has_key(parsed(q, dict, topo, stops, tw, ParseMode::Index).ngrams, k) ==> has_key(
            parsed(q, dict, topo, stops, tw, ParseMode::Search).ngrams,
            k,
        ),
{
    let tokens = tokens_of(normalized(q));
    let ov = overlay_of(normalized(q), dict, ParseMode::Search);
    let none = Map::<usize, Seq<char>>::empty();
    if tokens.len() >= 2 {
        lemma_classes_without_alternates(tokens, tw, stops, ov, topo, dict);
        let c = classes(tokens, tw, stops, none, topo, dict);
        let a = stop_list(tokens, c.rels, c.word_idx, c.stop_idx, ov, ParseMode::Search);
        let b = stop_list(tokens, c.rels, c.word_idx, c.stop_idx, none, ParseMode::Index);
        lemma_stop_list_same(tokens, c.rels, c.word_idx, c.stop_idx, ov, ParseMode::Search);
        lemma_candidates_cover(tokens, c.rels, c.norm, c.must_have, c.numerics, a, b, ov, k);
        lemma_has_key_added_all(
            Seq::empty(),
            candidates(tokens, c.rels, c.norm, c.must_have, c.numerics, b, none, ParseMode::Index),
            k,
        );
        lemma_has_key_added_all(
            Seq::empty(),
            candidates(tokens, c.rels, c.norm, c.must_have, c.numerics, a, ov, ParseMode::Search),
            k,
        );
    }
}

/// The key of the n-gram is the bag-of-words key of its tokens, the tokens in
/// rising order joined by spaces, or that of its tokens with one of them
/// replaced by its alternate.
pub open spec fn has_sorted_key(g: Gram, tokens: Seq<Seq<char>>, ov: Map<usize, Seq<char>>) -> bool {
    let words = picked(tokens, g.indices);
    g.key == bag_key(words) || exists|at: int|
        0 <= at < g.indices.len() && ov.contains_key(g.indices[at]) && g.key == bag_key(
            #[trigger] words.update(at, ov[g.indices[at]]),
        )
}

/// The n-gram is what a pair of stop-n-grams offers: the pair, or the pair
/// with a variant of one of the two.
pub open spec fn is_pair(g: Gram, list: StopList, len: int, norm: int) -> bool {
    exists|i: int, j: int|
        0 <= i < j < list.grams.len() && (#[trigger] pair_cands(list, len, norm, i, j)).contains(g)
}

/// What is in a list of two is in one of the two.
pub proof fn lemma_member_of_concat(a: Seq<Gram>, b: Seq<Gram>, g: Gram)
    ensures
        (a + b).contains(g) ==> a.contains(g) || b.contains(g),
{
    if (a + b).contains(g) {
        let i = choose|i: int| 0 <= i < (a + b).len() && (a + b)[i] == g;
        if i < a.len() {
            assert(a[i] == g);
        } else {
            assert(b[i - a.len()] == g);
        }
    }
}

/// An n-gram of a list to which n-grams were added in turn was in the list
/// or is one of them.
pub proof fn lemma_member_of_added_all(out: Seq<Gram>, gs: Seq<Gram>, g: Gram)
    ensures
        added_all(out, gs).contains(g) ==> out.contains(g) || gs.contains(g),
    decreases gs.len(),
{
    if gs.len() > 0 && added_all(out, gs).contains(g) {
        let before = added_all(out, gs.drop_last());
        lemma_member_of_added_all(out, gs.drop_last(), g);
        if before.contains(g) {
            if gs.drop_last().contains(g) {
                let i = choose|i: int| 0 <= i < gs.drop_last().len() && gs.drop_last()[i] == g;
                assert(gs[i] == g);
            }
        } else {
            let all = added_all(out, gs);
            let i = choose|i: int| 0 <= i < all.len() && all[i] == g;
            if i < before.len() {
                assert(before[i] == g);
            }
            assert(gs[gs.len() - 1] == g);
        }
    }
}

/// What the pairs of a stop-n-gram offer is offered by one of the pairs.
pub proof fn lemma_member_of_row(list: StopList, len: int, norm: int, i: int, m: int, g: Gram)
    requires
        0 <= i,
        m <= list.grams.len(),
        row_cands(list, len, norm, i, m).contains(g),
    ensures
        is_pair(g, list, len, norm),
    decreases m - i,
{
    if m > i + 1 {
        let before = row_cands(list, len, norm, i, m - 1);
        let pair = pair_cands(list, len, norm, i, m - 1);
        if blocked_upto(list, i, m - 1) {
            lemma_member_of_row(list, len, norm, i, m - 1, g);
        } else {
            lemma_member_of_concat(before, pair, g);
            if before.contains(g) {
                lemma_member_of_row(list, len, norm, i, m - 1, g);
            } else {
                assert(pair_cands(list, len, norm, i, m - 1).contains(g));
            }
        }
    } else {
        let none = row_cands(list, len, norm, i, m);
        let x = choose|x: int| 0 <= x < none.len() && none[x] == g;
    }
}

/// What a stop-n-gram offers by itself has a sorted key.
pub proof fn lemma_member_of_self(
    list: StopList,
    tokens: Seq<Seq<char>>,
    ov: Map<usize, Seq<char>>,
    len: int,
    norm: int,
    i: int,
    g: Gram,
)
    requires
        keyed(list, tokens, ov),
        0 <= i < list.grams.len(),
        self_cands(list, len, norm, i).contains(g),
    ensures
        has_sorted_key(g, tokens, ov),
{
    let own = self_cands(list, len, norm, i);
    let x = choose|x: int| 0 <= x < own.len() && own[x] == g;
    let origin = list.grams[i];
    if x > 0 {
        let v = list.alts[i][x - 1];
        assert(g.key == v.key && g.indices == v.indices);
        assert(list.alts[i] == variants_for(tokens, origin.indices, origin.weight, ov, list.mode));
        lemma_variants_are_of_their_ngram(
            tokens,
            origin.indices,
            origin.weight,
            ov,
            origin.indices.len() as int,
            x - 1,
        );
    } else {
        assert(g.key == origin.key && g.indices == origin.indices);
    }
}

/// What the first `n` stop-n-grams offer has a sorted key or is offered by a
/// pair.
pub proof fn lemma_member_of_stop_cands(
    list: StopList,
    tokens: Seq<Seq<char>>,
    ov: Map<usize, Seq<char>>,
    len: int,
    norm: int,
    n: int,
    g: Gram,
)
    requires
        keyed(list, tokens, ov),
        n <= list.grams.len(),
        stop_cands(list, len, norm, n).contains(g),
    ensures
        has_sorted_key(g, tokens, ov) || is_pair(g, list, len, norm),
    decreases n,
{
    if n > 0 {
        let before = stop_cands(list, len, norm, n - 1);
        let own = self_cands(list, len, norm, n - 1);
        let row = row_cands(list, len, norm, n - 1, list.grams.len() as int);
        lemma_member_of_concat(before + own, row, g);
        lemma_member_of_concat(before, own, g);
        if before.contains(g) {
            lemma_member_of_stop_cands(list, tokens, ov, len, norm, n - 1, g);
        } else if own.contains(g) {
            lemma_member_of_self(list, tokens, ov, len, norm, n - 1, g);
        } else {
            lemma_member_of_row(list, len, norm, n - 1, list.grams.len() as int, g);
        }
    } else {
        let none = stop_cands(list, len, norm, n);
        let x = choose|x: int| 0 <= x < none.len() && none[x] == g;
    }
}

/// What the tokens offer by themselves has sorted keys: a token, two tokens,
/// three tokens, a token with each of two others, each also with the
/// alternate of the first token in its place.
pub proof fn lemma_member_of_word_cands(
    tokens: Seq<Seq<char>>,
    rels: Seq<u128>,
    ov: Map<usize, Seq<char>>,
    mode: ParseMode,
    a: usize,
    b: usize,
    c: usize,
    g: Gram,
)
    ensures
        uni_cands(tokens, rels, ov, mode, a).contains(g) ==> has_sorted_key(g, tokens, ov),
        duo_cands(tokens, rels, ov, mode, a, b).contains(g) ==> has_sorted_key(g, tokens, ov),
        trio_cands(tokens, rels, ov, mode, a, b, c).contains(g) ==> has_sorted_key(g, tokens, ov),
        spread_cands(tokens, rels, ov, mode, a, b, c).contains(g) ==> has_sorted_key(
            g,
            tokens,
            ov,
        ),
{
    let ta = tokens[a as int];
    let tb = tokens[b as int];
    let tc = tokens[c as int];
    let va = ov[a];
    let one = picked(tokens, seq![a]);
    let two = picked(tokens, seq![a, b]);
    let far = picked(tokens, seq![a, c]);
    let three = picked(tokens, seq![a, b, c]);
    assert(one =~= seq![ta] && one.update(0, va) =~= seq![va]);
    assert(two =~= seq![ta, tb] && two.update(0, va) =~= seq![va, tb]);
    assert(far =~= seq![ta, tc] && far.update(0, va) =~= seq![va, tc]);
    assert(three =~= seq![ta, tb, tc] && three.update(0, va) =~= seq![va, tb, tc]);
    lemma_bag_key_of_one(ta);
    lemma_bag_key_of_one(va);
    lemma_bag_key_of_two(ta, tb);
    lemma_bag_key_of_two(va, tb);
    lemma_bag_key_of_two(ta, tc);
    lemma_bag_key_of_two(va, tc);
    lemma_bag_key_of_three(ta, tb, tc);
    lemma_bag_key_of_three(va, tb, tc);
    let u = uni_cands(tokens, rels, ov, mode, a);
    if u.contains(g) {
        let x = choose|x: int| 0 <= x < u.len() && u[x] == g;
        assert(g.indices == seq![a]);
        if x == 1 {
            assert(g.key == bag_key(one.update(0, ov[g.indices[0]])));
        }
    }
    let d = duo_cands(tokens, rels, ov, mode, a, b);
    if d.contains(g) {
        let x = choose|x: int| 0 <= x < d.len() && d[x] == g;
        assert(g.indices == seq![a, b]);
        if x == 1 {
            assert(g.key == bag_key(two.update(0, ov[g.indices[0]])));
        }
    }
    let t = trio_cands(tokens, rels, ov, mode, a, b, c);
    if t.contains(g) {
        let x = choose|x: int| 0 <= x < t.len() && t[x] == g;
        assert(g.indices == seq![a, b, c]);
        if x == 1 {
            assert(g.key == bag_key(three.update(0, ov[g.indices[0]])));
        }
    }
    let s = spread_cands(tokens, rels, ov, mode, a, b, c);
    if s.contains(g) {
        let x = choose|x: int| 0 <= x < s.len() && s[x] == g;
        if x == 0 || x == 2 {
            assert(g.indices == seq![a, b]);
            if x == 2 {
                assert(g.key == bag_key(two.update(0, ov[g.indices[0]])));
            }
        } else {
            assert(g.indices == seq![a, c]);
            if x == 3 {
                assert(g.key == bag_key(far.update(0, ov[g.indices[0]])));
            }
        }
    }
}

/// Every n-gram that a query of two tokens or more offers has a sorted key or
/// is offered by a pair of stop-n-grams.
pub proof fn lemma_member_of_candidates(
    tokens: Seq<Seq<char>>,
    rels: Seq<u128>,
    norm: int,
    seed: Seq<usize>,
    numerics: Set<usize>,
    list: StopList,
    ov: Map<usize, Seq<char>>,
    mode: ParseMode,
    g: Gram,
)
    requires
        keyed(list, tokens, ov),
        candidates(tokens, rels, norm, seed, numerics, list, ov, mode).contains(g),
    ensures
        has_sorted_key(g, tokens, ov) || is_pair(g, list, tokens.len() as int, norm),
{
    let len = tokens.len() as int;
    let order = weight_order(rels);
    let must = must_choice(order, rels, norm, seed, numerics, len);
    let c1 = stop_cands(list, len, norm, list.grams.len() as int);
    let c2 = first_cands(tokens, rels, order, ov, mode);
    let c3 = second_cands(tokens, rels, order, ov, mode);
    let c4 = must_cands(tokens, rels, must.word, ov, mode);
    let c5 = top_cands(tokens, rels, norm, order, ov, mode);
    let c6 = closing_cands(tokens, rels, order, ov, mode);
    lemma_member_of_concat(c1 + c2 + c3 + c4 + c5, c6, g);
    lemma_member_of_concat(c1 + c2 + c3 + c4, c5, g);
    lemma_member_of_concat(c1 + c2 + c3, c4, g);
    lemma_member_of_concat(c1 + c2, c3, g);
    lemma_member_of_concat(c1, c2, g);
    if c1.contains(g) {
        lemma_member_of_stop_cands(list, tokens, ov, len, norm, list.grams.len() as int, g);
    } else if c2.contains(g) {
        lemma_member_of_word_cands(tokens, rels, ov, mode, order[0], order[0], order[0], g);
    } else if c3.contains(g) {
        lemma_member_of_word_cands(tokens, rels, ov, mode, order[1], order[1], order[1], g);
    } else if c4.contains(g) {
        lemma_member_of_word_cands(
            tokens,
            rels,
            ov,
            mode,
            must.word as usize,
            must.word as usize,
            must.word as usize,
            g,
        );
    } else if c5.contains(g) {
        let trio = trio_cands(tokens, rels, ov, mode, order[0], order[1], order[2]);
        let duo = duo_cands(tokens, rels, ov, mode, order[0], order[len - 1]);
        let spread = spread_cands(tokens, rels, ov, mode, order[1], order[len - 1], order[2]);
        lemma_member_of_concat(trio, duo, g);
        lemma_member_of_concat(trio, spread, g);
        lemma_member_of_word_cands(tokens, rels, ov, mode, order[0], order[1], order[2], g);
        lemma_member_of_word_cands(tokens, rels, ov, mode, order[0], order[len - 1], order[2], g);
        lemma_member_of_word_cands(tokens, rels, ov, mode, order[1], order[len - 1], order[2], g);
        if len <= 3 {
            let x = choose|x: int| 0 <= x < c5.len() && c5[x] == g;
        }
    } else {
        let none = Seq::<Gram>::empty();
        let near = if len >= 3 {
            duo_cands(tokens, rels, ov, mode, order[0], order[1])
        } else {
            none
        };
        let far = if len >= 4 {
            duo_cands(tokens, rels, ov, mode, order[0], order[2])
        } else {
            none
        };
        lemma_member_of_concat(near, far, g);
        lemma_member_of_word_cands(tokens, rels, ov, mode, order[0], order[1], order[2], g);
        lemma_member_of_word_cands(tokens, rels, ov, mode, order[0], order[2], order[2], g);
        if near.contains(g) && len < 3 {
            let x = choose|x: int| 0 <= x < near.len() && near[x] == g;
        }
        if far.contains(g) && len < 4 {
            let x = choose|x: int| 0 <= x < far.len() && far[x] == g;
        }
    }
}

/// The key of every n-gram of a query is its tokens in rising order, joined
/// by spaces, or the same with one token replaced by its alternate; but for
/// the n-grams that a pair of stop-n-grams offers, whose key is the key of
/// the two keys.
pub proof fn lemma_keys_are_sorted(
    q: Seq<char>,
    dict: Option<Map<Seq<char>, Seq<char>>>,
    topo: Option<Set<Seq<char>>>,
    stops: Set<Seq<char>>,
    tw: Map<Seq<char>, u64>,
    mode: ParseMode,
    p: int,
)
    requires
        0 <= p < parsed(q, dict, topo, stops, tw, mode).ngrams.len(),
    ensures
        ({
            let o = parsed(q, dict, topo, stops, tw, mode);
            let c = classes(o.tokens, tw, stops, o.overlay, topo, dict);
            let list = stop_list(o.tokens, c.rels, c.word_idx, c.stop_idx, o.overlay, mode);
            has_sorted_key(o.ngrams[p], o.tokens, o.overlay) || (o.tokens.len() >= 2 && is_pair(
                o.ngrams[p],
                list,
                o.tokens.len() as int,
                c.norm,
            ))
        }),
{
    let o = parsed(q, dict, topo, stops, tw, mode);
    let tokens = o.tokens;
    let ov = o.overlay;
    let g = o.ngrams[p];
    if tokens.len() == 1 {
        lemma_bag_key_of_one(tokens[0]);
        assert(picked(tokens, seq![0usize]) =~= seq![tokens[0]]);
    } else if tokens.len() >= 2 {
        let c = classes(tokens, tw, stops, ov, topo, dict);
        let list = stop_list(tokens, c.rels, c.word_idx, c.stop_idx, ov, mode);
        let cands = candidates(tokens, c.rels, c.norm, c.must_have, c.numerics, list, ov, mode);
        lemma_stop_list_keyed(tokens, c.rels, c.word_idx, c.stop_idx, ov, mode);
        assert(o.ngrams.contains(g));
        lemma_member_of_added_all(Seq::empty(), cands, g);
        if Seq::<Gram>::empty().contains(g) {
            let x = choose|x: int| 0 <= x < Seq::<Gram>::empty().len() && Seq::<Gram>::empty()[x] == g;
        }
        lemma_member_of_candidates(
            tokens,
            c.rels,
            c.norm,
            c.must_have,
            c.numerics,
            list,
            ov,
            mode,
            g,
        );
    }
}

} // verus!
