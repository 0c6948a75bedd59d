use crate::bow::{
    bag_key, bag_of, in_order, in_rising_order, joined, lemma_rising_order_is_sorted,
};
use crate::chars::{all_numbers, byte_len, is_all_numbers, lemma_push_contains, texts};
use crate::lookup::{
    index_set, index_set_contains, index_set_insert, index_set_new, index_set_of, overlay_map,
    set_contains, set_insert, set_new, word_set,
};
use crate::model::{Gram, ParseMode, MAX_GRAM_WEIGHT, MAX_WEIGHT, WORDS_PER_QUERY};
use crate::stopgrams::{
    grams, indices_within, lemma_bow_key_is_bag_key, lemma_variants_are_of_their_ngram,
    list_within, pick_words, picked, pushed, variants_for, variants_insert, variants_of,
    variants_remove, weights_within, StopList, StopNgram, StopNgrams,
};
use fnv::{FnvHashMap, FnvHashSet};
use vstd::prelude::*;

verus! {

/// The state of the walk over the stop words: the n-grams made so far, the
/// tokens that some n-gram holds, and the stop words that the walk passes over.
pub struct Scan {
    pub list: StopList,
    pub linked: Seq<bool>,
    pub skip: Seq<bool>,
}

/// The flags with those at the given indices set.
pub open spec fn marked(flags: Seq<bool>, ix: Seq<usize>) -> Seq<bool> {
    Seq::new(flags.len(), |x: int| flags[x] || ix.contains(x as usize))
}

/// The state after the n-gram of the given tokens was made.
pub open spec fn emit(
    s: Scan,
    tokens: Seq<Seq<char>>,
    rels: Seq<u128>,
    ov: Map<usize, Seq<char>>,
    ix: Seq<usize>,
) -> Scan {
    Scan { list: pushed(s.list, tokens, rels, ix, ov), linked: marked(s.linked, ix), skip: s.skip }
}

/// The state in which the walk will pass over the stop word at `x`.
pub open spec fn skipped(s: Scan, x: int) -> Scan {
    Scan { list: s.list, linked: s.linked, skip: s.skip.update(x, true) }
}

/// The state after the token at `i` joined the n-gram made last: the key is
/// the bag-of-words key of its tokens with the new one, the weight grows by
/// the token's, and the variants are those of the n-gram as it now is.
pub open spec fn merged(
    s: Scan,
    tokens: Seq<Seq<char>>,
    rels: Seq<u128>,
    ov: Map<usize, Seq<char>>,
    i: int,
) -> Scan {
    let linked = marked(s.linked, seq![i as usize]);
    if s.list.grams.len() == 0 {
        Scan { list: s.list, linked: linked, skip: s.skip }
    } else {
        let last = s.list.grams.last();
        let ix = last.indices.push(i as usize);
        let w = last.weight + rels[i];
        let joined = Gram { key: bag_key(picked(tokens, ix)), weight: w, indices: ix };
        Scan {
            list: StopList {
                grams: s.list.grams.update(s.list.grams.len() - 1, joined),
                alts: s.list.alts.update(
                    s.list.grams.len() - 1,
                    variants_for(tokens, ix, w, ov, s.list.mode),
                ),
                mode: s.list.mode,
            },
            linked: linked,
            skip: s.skip,
        }
    }
}

/// The state after the token at `j` was made an n-gram of its own, unless
/// some n-gram holds it already.
pub open spec fn solo_if_unlinked(
    s: Scan,
    tokens: Seq<Seq<char>>,
    rels: Seq<u128>,
    ov: Map<usize, Seq<char>>,
    j: int,
) -> Scan {
    if !s.linked[j] {
        emit(s, tokens, rels, ov, seq![j as usize])
    } else {
        s
    }
}

/// The state after each of the first `n` listed words that lies before
/// `bound` and is in no n-gram yet was made an n-gram of its own.
pub open spec fn drained(
    s: Scan,
    tokens: Seq<Seq<char>>,
    rels: Seq<u128>,
    ov: Map<usize, Seq<char>>,
    word_idx: Seq<usize>,
    bound: int,
    n: int,
) -> Scan
    decreases n,
{
    if n <= 0 {
        s
    } else {
        let t = drained(s, tokens, rels, ov, word_idx, bound, n - 1);
        let x = word_idx[n - 1];
        if x < bound && !t.linked[x as int] {
            emit(t, tokens, rels, ov, seq![x])
        } else {
            t
        }
    }
}

/// Some token that an n-gram holds reads `w`.
pub open spec fn linked_word(tokens: Seq<Seq<char>>, linked: Seq<bool>, w: Seq<char>) -> bool {
    exists|x: int| 0 <= x < tokens.len() && linked[x] && #[trigger] tokens[x] == w
}

/// A stop word between two other words goes to the left one: when the right
/// word is in an n-gram already, or when the left one is free and either at
/// least four times as long as the right one or, the stop word being a single
/// byte, heavier than the right one or left of a number.
pub open spec fn absorbs_left(s: Scan, tokens: Seq<Seq<char>>, rels: Seq<u128>, i: int) -> bool {
    let j = i - 1;
    let k = i + 1;
    linked_word(tokens, s.linked, tokens[k]) || (!s.linked[j] && (byte_len(tokens[j]) >= 4
        * byte_len(tokens[k]) || (byte_len(tokens[i]) == 1 && (rels[j] > rels[k] || all_numbers(
        tokens[k],
    )))))
}

/// The step for a stop word that leads the query.
pub open spec fn lead_step(
    s: Scan,
    tokens: Seq<Seq<char>>,
    rels: Seq<u128>,
    stops: Seq<bool>,
    ov: Map<usize, Seq<char>>,
) -> Scan {
    let last = tokens.len() - 1;
    let s1 = skipped(s, 1);
    if !stops[1] || 1 == last {
        emit(s1, tokens, rels, ov, seq![0usize, 1usize])
    } else {
        let s2 = emit(s1, tokens, rels, ov, seq![0usize, 1usize, 2usize]);
        if stops[2] {
            skipped(s2, 2)
        } else {
            s2
        }
    }
}

/// The step for a stop word with a token on either side.
pub open spec fn inner_step(
    s: Scan,
    tokens: Seq<Seq<char>>,
    rels: Seq<u128>,
    stops: Seq<bool>,
    ov: Map<usize, Seq<char>>,
    i: int,
) -> Scan {
    let last = tokens.len() - 1;
    let j = i - 1;
    let k = i + 1;
    if !stops[j] && stops[k] {
        if k < last && !stops[k + 1] && rels[k + 1] >= rels[j] {
            emit(
                skipped(skipped(solo_if_unlinked(s, tokens, rels, ov, j), k), k + 1),
                tokens,
                rels,
                ov,
                seq![i as usize, k as usize, (k + 1) as usize],
            )
        } else if k < last && rels[j] > rels[k + 1] && !s.linked[j] {
            emit(s, tokens, rels, ov, seq![j as usize, i as usize])
        } else {
            emit(skipped(s, k), tokens, rels, ov, seq![i as usize, k as usize])
        }
    } else if stops[j] && !stops[k] {
        emit(s, tokens, rels, ov, seq![i as usize, k as usize])
    } else if stops[j] && stops[k] {
        if k == last || stops[k + 1] {
            emit(skipped(s, k), tokens, rels, ov, seq![i as usize, k as usize])
        } else {
            emit(
                skipped(skipped(s, k), k + 1),
                tokens,
                rels,
                ov,
                seq![i as usize, k as usize, (k + 1) as usize],
            )
        }
    } else {
        if absorbs_left(s, tokens, rels, i) {
            emit(s, tokens, rels, ov, seq![j as usize, i as usize])
        } else {
            emit(
                solo_if_unlinked(s, tokens, rels, ov, j),
                tokens,
                rels,
                ov,
                seq![i as usize, k as usize],
            )
        }
    }
}

/// The step for a stop word that ends the query.
pub open spec fn tail_step(
    s: Scan,
    tokens: Seq<Seq<char>>,
    rels: Seq<u128>,
    ov: Map<usize, Seq<char>>,
    i: int,
) -> Scan {
    let j = i - 1;
    if !s.linked[j] {
        emit(s, tokens, rels, ov, seq![j as usize, i as usize])
    } else {
        merged(s, tokens, rels, ov, i)
    }
}

/// The step for the stop word at `i`: nothing where the walk passes over it;
/// else, after the free words to the left of its left neighbour were made
/// n-grams of their own, the step that its place in the query calls for.
pub open spec fn step(
    s: Scan,
    tokens: Seq<Seq<char>>,
    rels: Seq<u128>,
    word_idx: Seq<usize>,
    stops: Seq<bool>,
    ov: Map<usize, Seq<char>>,
    i: int,
) -> Scan {
    let last = tokens.len() - 1;
    if s.skip[i] {
        s
    } else if i == 0 {
        lead_step(s, tokens, rels, stops, ov)
    } else if i < last {
        inner_step(
            drained(s, tokens, rels, ov, word_idx, i - 1, word_idx.len() as int),
            tokens,
            rels,
            stops,
            ov,
            i,
        )
    } else {
        tail_step(
            drained(s, tokens, rels, ov, word_idx, i - 1, word_idx.len() as int),
            tokens,
            rels,
            ov,
            i,
        )
    }
}

/// The state before the walk.
pub open spec fn initial(len: int, mode: ParseMode) -> Scan {
    Scan {
        list: StopList { grams: Seq::empty(), alts: Seq::empty(), mode: mode },
        linked: Seq::new(len as nat, |x: int| false),
        skip: Seq::new(len as nat, |x: int| false),
    }
}

/// Which tokens are stop words.
pub open spec fn stop_flags(stop_idx: Seq<usize>, len: int) -> Seq<bool> {
    marked(Seq::new(len as nat, |x: int| false), stop_idx)
}

/// The state after the first `n` stop words were walked.
pub open spec fn scanned(
    tokens: Seq<Seq<char>>,
    rels: Seq<u128>,
    word_idx: Seq<usize>,
    stop_idx: Seq<usize>,
    ov: Map<usize, Seq<char>>,
    mode: ParseMode,
    n: int,
) -> Scan
    decreases n,
{
    if n <= 0 {
        initial(tokens.len() as int, mode)
    } else {
        step(
            scanned(tokens, rels, word_idx, stop_idx, ov, mode, n - 1),
            tokens,
            rels,
            word_idx,
            stop_flags(stop_idx, tokens.len() as int),
            ov,
            stop_idx[n - 1] as int,
        )
    }
}

/// The stop-n-grams of a query: what the walk over all stop words made, and
/// then each word that is in no n-gram as an n-gram of its own.
pub open spec fn stop_list(
    tokens: Seq<Seq<char>>,
    rels: Seq<u128>,
    word_idx: Seq<usize>,
    stop_idx: Seq<usize>,
    ov: Map<usize, Seq<char>>,
    mode: ParseMode,
) -> StopList {
    drained(
        scanned(tokens, rels, word_idx, stop_idx, ov, mode, stop_idx.len() as int),
        tokens,
        rels,
        ov,
        word_idx,
        tokens.len() as int,
        word_idx.len() as int,
    ).list
}

/// The flags of the first `len` indices: set for the members of the set.
pub open spec fn flags_of(set: Set<usize>, len: int) -> Seq<bool> {
    Seq::new(len as nat, |x: int| set.contains(x as usize))
}

/// The set holds the words of the linked tokens and no others.
pub open spec fn holds_linked_words(
    lw: Set<Seq<char>>,
    tokens: Seq<Seq<char>>,
    linked: Seq<bool>,
) -> bool {
    forall|w: Seq<char>| lw.contains(w) <==> linked_word(tokens, linked, w)
}

/// Notes that the tokens at the given indices are in an n-gram: their
/// indices join one set, their words the other.
pub fn update_linked(
    words_indices: &Vec<usize>,
    words: &Vec<String>,
    linked_idx: &mut FnvHashSet<usize>,
    linked_words: &mut FnvHashSet<String>,
)
    requires
        indices_within(words_indices@, words.len() as int),
    ensures
        index_set(*final(linked_idx)) == index_set(*old(linked_idx)).union(
            words_indices@.to_set(),
        ),
        word_set(*final(linked_words)) == word_set(*old(linked_words)).union(
            picked(texts(words@), words_indices@).to_set(),
        ),
{
    let ghost ix = words_indices@;
    let ghost tokens = texts(words@);
    let ghost idx0 = index_set(*linked_idx);
    let ghost words0 = word_set(*linked_words);
    let mut n: usize = 0;
    assert(idx0 =~= idx0.union(ix.take(0).to_set()));
    assert(words0 =~= words0.union(picked(tokens, ix.take(0)).to_set()));
    while n < words_indices.len()
        invariant
            n <= words_indices.len(),
            ix == words_indices@,
            tokens == texts(words@),
            indices_within(ix, words.len() as int),
            index_set(*linked_idx) == idx0.union(ix.take(n as int).to_set()),
            word_set(*linked_words) == words0.union(picked(tokens, ix.take(n as int)).to_set()),
        decreases words_indices.len() - n,
    {
        let i = words_indices[n];
        index_set_insert(linked_idx, i);
        set_insert(linked_words, words[i].clone());
        proof {
            let w = tokens[i as int];
            assert(ix.take(n + 1) =~= ix.take(n as int).push(i));
            assert(picked(tokens, ix.take(n + 1)) =~= picked(tokens, ix.take(n as int)).push(w));
            assert forall|x: usize|
                idx0.union(ix.take(n as int).to_set()).insert(i).contains(x) <==> idx0.union(
                    ix.take(n + 1).to_set(),
                ).contains(x) by {
                lemma_push_contains(ix.take(n as int), i, x);
            }
            assert(index_set(*linked_idx) =~= idx0.union(ix.take(n + 1).to_set()));
            assert forall|v: Seq<char>|
                words0.union(picked(tokens, ix.take(n as int)).to_set()).insert(w).contains(v)
                    <==> words0.union(picked(tokens, ix.take(n + 1)).to_set()).contains(v) by {
                lemma_push_contains(picked(tokens, ix.take(n as int)), w, v);
            }
            assert(word_set(*linked_words) =~= words0.union(
                picked(tokens, ix.take(n + 1)).to_set(),
            ));
        }
        n += 1;
    }
    assert(ix.take(ix.len() as int) =~= ix);
}

struct Scanner {
    list: StopNgrams,
    linked: FnvHashSet<usize>,
    linked_words: FnvHashSet<String>,
    skip: FnvHashSet<usize>,
    len: usize,
}

impl View for Scanner {
    type V = Scan;

    closed spec fn view(&self) -> Scan {
        Scan {
            list: self.list@,
            linked: flags_of(index_set(self.linked), self.len as int),
            skip: flags_of(index_set(self.skip), self.len as int),
        }
    }
}

impl Scanner {
    spec fn ok(&self, tokens: Seq<Seq<char>>) -> bool {
        &&& self.list.wf()
        &&& self.len == tokens.len()
        &&& holds_linked_words(word_set(self.linked_words), tokens, self@.linked)
        &&& forall|p: int|
            0 <= p < self.list.ngrams.len() ==> indices_within(
                (#[trigger] self.list.ngrams@[p]).word_indices@,
                tokens.len() as int,
            )
    }

    fn is_linked(&self, j: usize) -> (r: bool)
        requires
            j < self.len,
        ensures
            r == self@.linked[j as int],
    {
        index_set_contains(&self.linked, j)
    }

    fn is_skipped(&self, i: usize) -> (r: bool)
        requires
            i < self.len,
        ensures
            r == self@.skip[i as int],
    {
        index_set_contains(&self.skip, i)
    }

    fn emit(
        &mut self,
        words: &Vec<String>,
        rels: &Vec<u128>,
        ix: Vec<usize>,
        synonyms: &FnvHashMap<usize, String>,
    )
        requires
            old(self).ok(texts(words@)),
            words.len() == rels.len(),
            indices_within(ix@, words.len() as int),
            weights_within(rels@, MAX_WEIGHT as int),
        ensures
            final(self).ok(texts(words@)),
            final(self)@ == emit(old(self)@, texts(words@), rels@, overlay_map(*synonyms), ix@),
            forall|cap: int|
                3 * MAX_WEIGHT <= cap && list_within(old(self)@.list, cap) ==> list_within(
                    final(self)@.list,
                    cap,
                ),
    {
        let ghost before = self.list.ngrams@;
        let ghost given = ix@;
        self.link(words, &ix);
        self.list.update(words, rels, ix, synonyms);
        proof {
            assert forall|p: int| 0 <= p < self.list.ngrams.len() implies indices_within(
                (#[trigger] self.list.ngrams@[p]).word_indices@,
                words.len() as int,
            ) by {
                let now = self.list@.grams;
                assert(now.len() == self.list.ngrams.len());
                assert(now[p] == self.list.ngrams@[p]@);
                assert(grams(before).len() == before.len());
                if p < before.len() {
                    assert(now[p] == grams(before)[p]);
                    assert(grams(before)[p] == before[p]@);
                } else {
                    assert(now[p].indices == given);
                }
            }
        }
    }

    fn link(&mut self, words: &Vec<String>, ix: &Vec<usize>)
        requires
            old(self).ok(texts(words@)),
            indices_within(ix@, words.len() as int),
        ensures
            final(self).ok(texts(words@)),
            final(self).list == old(self).list,
            final(self)@.list == old(self)@.list,
            final(self)@.skip == old(self)@.skip,
            final(self)@.linked == marked(old(self)@.linked, ix@),
            final(self).list.ngrams == old(self).list.ngrams,
    {
        let ghost tokens = texts(words@);
        let ghost before = self@.linked;
        let ghost words0 = word_set(self.linked_words);
        update_linked(ix, words, &mut self.linked, &mut self.linked_words);
        proof {
            let after = self@.linked;
            let added = picked(tokens, ix@);
            assert forall|x: int| 0 <= x < after.len() implies after[x] == marked(
                before,
                ix@,
            )[x] by {
                assert(ix@.to_set().contains(x as usize) <==> ix@.contains(x as usize));
            }
            assert(after =~= marked(before, ix@));
            assert forall|w: Seq<char>| word_set(self.linked_words).contains(w) <==> linked_word(
                tokens,
                after,
                w,
            ) by {
                assert(added.to_set().contains(w) <==> added.contains(w));
                if words0.contains(w) {
                    let x = choose|x: int|
                        0 <= x < tokens.len() && before[x] && #[trigger] tokens[x] == w;
                    assert(after[x] && tokens[x] == w);
                }
                if added.contains(w) {
                    let p = choose|p: int| 0 <= p < added.len() && added[p] == w;
                    let x = ix@[p] as int;
                    assert(ix@.contains(ix@[p]));
                    assert(after[x] && tokens[x] == w);
                }
                if linked_word(tokens, after, w) {
                    let x = choose|x: int|
                        0 <= x < tokens.len() && after[x] && #[trigger] tokens[x] == w;
                    if before[x] {
                        assert(linked_word(tokens, before, w));
                    } else {
                        let p = choose|p: int| 0 <= p < ix.len() && ix@[p] == x as usize;
                        assert(added[p] == w);
                    }
                }
            }
        }
    }

    fn pass_over(&mut self, x: usize)
        requires
            x < old(self).len,
        ensures
            final(self)@ == skipped(old(self)@, x as int),
            final(self).list == old(self).list,
            final(self).len == old(self).len,
            forall|tokens: Seq<Seq<char>>| old(self).ok(tokens) ==> final(self).ok(tokens),
    {
        let ghost before = self@.skip;
        index_set_insert(&mut self.skip, x);
        assert(self@.skip =~= before.update(x as int, true));
    }

    fn merge(
        &mut self,
        words: &Vec<String>,
        rels: &Vec<u128>,
        i: usize,
        synonyms: &FnvHashMap<usize, String>,
    )
        requires
            old(self).ok(texts(words@)),
            words.len() == rels.len(),
            i < words.len(),
            weights_within(rels@, MAX_WEIGHT as int),
            list_within(old(self)@.list, MAX_GRAM_WEIGHT - MAX_WEIGHT),
        ensures
            final(self).ok(texts(words@)),
            final(self)@ == merged(
                old(self)@,
                texts(words@),
                rels@,
                overlay_map(*synonyms),
                i as int,
            ),
            forall|cap: int|
                list_within(old(self)@.list, cap) ==> list_within(
                    final(self)@.list,
                    cap + MAX_WEIGHT,
                ),
    {
        let ghost before = self@;
        let ghost before_list = self.list.ngrams@;
        let ghost tokens = texts(words@);
        let ghost ov = overlay_map(*synonyms);
        let one = vec![i];
        assert(one@ =~= seq![i]);
        self.link(words, &one);
        match self.list.ngrams.pop() {
            Some(last) => {
                assert(last == before_list[before_list.len() - 1]);
                let mut ids = last.word_indices;
                ids.push(i);
                let held = pick_words(words, &ids);
                let key = bag_of(&held);
                let w = last.relev + rels[i];
                let alts = variants_of(words, &ids, w, synonyms, self.list.mode);
                let ghost given = grams(alts@);
                let at = self.list.ngrams.len();
                let g = StopNgram::new(key, w, ids);
                self.list.ngrams.push(g);
                if alts.len() > 0 {
                    variants_insert(&mut self.list.synonyms, at, alts);
                } else {
                    variants_remove(&mut self.list.synonyms, at);
                }
                proof {
                    assert(grams(self.list.ngrams@) =~= before.list.grams.update(at as int, g@));
                    if given.len() == 0 {
                        assert(given =~= Seq::empty());
                    }
                    assert forall|q: int| 0 <= q < self@.list.alts.len() implies self@.list.alts[q]
                        == before.list.alts.update(at as int, given)[q] by {
                        if q != at {
                            assert(before.list.alts[q] == self@.list.alts[q]);
                        }
                    }
                    assert(self@.list.alts =~= before.list.alts.update(at as int, given));
                    assert forall|q: int| 0 <= q < given.len() implies (#[trigger] given[q]).weight
                        == w by {
                        if self.list.mode == ParseMode::Search {
                            lemma_variants_are_of_their_ngram(
                                tokens,
                                g@.indices,
                                w as int,
                                ov,
                                g@.indices.len() as int,
                                q,
                            );
                        }
                    }
                }
            },
            None => {
                assert(self@.list.alts =~= before.list.alts);
            },
        }
    }

        fn drain(
        &mut self,
        words: &Vec<String>,
        rels: &Vec<u128>,
        word_idx: &Vec<usize>,
        bound: usize,
        synonyms: &FnvHashMap<usize, String>,
    )
        requires
            old(self).ok(texts(words@)),
            words.len() == rels.len(),
            indices_within(word_idx@, words.len() as int),
            weights_within(rels@, MAX_WEIGHT as int),
        ensures
            final(self).ok(texts(words@)),
            final(self)@ == drained(
                old(self)@,
                texts(words@),
                rels@,
                overlay_map(*synonyms),
                word_idx@,
                bound as int,
                word_idx.len() as int,
            ),
            forall|cap: int|
                3 * MAX_WEIGHT <= cap && list_within(old(self)@.list, cap) ==> list_within(
                    final(self)@.list,
                    cap,
                ),
    {
        let ghost start = self@;
        let mut n: usize = 0;
        while n < word_idx.len()
            invariant
                n <= word_idx.len(),
                self.ok(texts(words@)),
                words.len() == rels.len(),
                indices_within(word_idx@, words.len() as int),
                weights_within(rels@, MAX_WEIGHT as int),
                self@ == drained(
                    start,
                    texts(words@),
                    rels@,
                    overlay_map(*synonyms),
                    word_idx@,
                    bound as int,
                    n as int,
                ),
                forall|cap: int|
                    3 * MAX_WEIGHT <= cap && list_within(start.list, cap) ==> list_within(
                        self@.list,
                        cap,
                    ),
            decreases word_idx.len() - n,
        {
            let x = word_idx[n];
            if x < bound && !self.is_linked(x) {
                let ix = vec![x];
                assert(ix@ =~= seq![x]);
                self.emit(words, rels, ix, synonyms);
            }
            n += 1;
        }
    }

    fn solo_if_unlinked(
        &mut self,
        words: &Vec<String>,
        rels: &Vec<u128>,
        j: usize,
        synonyms: &FnvHashMap<usize, String>,
    )
        requires
            old(self).ok(texts(words@)),
            words.len() == rels.len(),
            j < words.len(),
            weights_within(rels@, MAX_WEIGHT as int),
        ensures
            final(self).ok(texts(words@)),
            final(self)@ == solo_if_unlinked(
                old(self)@,
                texts(words@),
                rels@,
                overlay_map(*synonyms),
                j as int,
            ),
            forall|cap: int|
                3 * MAX_WEIGHT <= cap && list_within(old(self)@.list, cap) ==> list_within(
                    final(self)@.list,
                    cap,
                ),
    {
        if !self.is_linked(j) {
            let ix = vec![j];
            assert(ix@ =~= seq![j]);
            self.emit(words, rels, ix, synonyms);
        }
    }

    fn emit2(
        &mut self,
        words: &Vec<String>,
        rels: &Vec<u128>,
        a: usize,
        b: usize,
        synonyms: &FnvHashMap<usize, String>,
    )
        requires
            old(self).ok(texts(words@)),
            words.len() == rels.len(),
            a < words.len(),
            b < words.len(),
            weights_within(rels@, MAX_WEIGHT as int),
        ensures
            final(self).ok(texts(words@)),
            final(self)@ == emit(
                old(self)@,
                texts(words@),
                rels@,
                overlay_map(*synonyms),
                seq![a, b],
            ),
            forall|cap: int|
                3 * MAX_WEIGHT <= cap && list_within(old(self)@.list, cap) ==> list_within(
                    final(self)@.list,
                    cap,
                ),
    {
        let ix = vec![a, b];
        assert(ix@ =~= seq![a, b]);
        self.emit(words, rels, ix, synonyms);
    }

    fn emit3(
        &mut self,
        words: &Vec<String>,
        rels: &Vec<u128>,
        a: usize,
        b: usize,
        c: usize,
        synonyms: &FnvHashMap<usize, String>,
    )
        requires
            old(self).ok(texts(words@)),
            words.len() == rels.len(),
            a < words.len(),
            b < words.len(),
            c < words.len(),
            weights_within(rels@, MAX_WEIGHT as int),
        ensures
            final(self).ok(texts(words@)),
            final(self)@ == emit(
                old(self)@,
                texts(words@),
                rels@,
                overlay_map(*synonyms),
                seq![a, b, c],
            ),
            forall|cap: int|
                3 * MAX_WEIGHT <= cap && list_within(old(self)@.list, cap) ==> list_within(
                    final(self)@.list,
                    cap,
                ),
    {
        let ix = vec![a, b, c];
        assert(ix@ =~= seq![a, b, c]);
        self.emit(words, rels, ix, synonyms);
    }

    fn goes_left(&self, words: &Vec<String>, rels: &Vec<u128>, i: usize) -> (r: bool)
        requires
            self.ok(texts(words@)),
            words.len() == rels.len(),
            0 < i,
            i + 1 < words.len(),
        ensures
            r == absorbs_left(self@, texts(words@), rels@, i as int),
    {
        let j = i - 1;
        let k = i + 1;
        let lj = words[j].as_str().len();
        let lk = words[k].as_str().len();
        let li = words[i].as_str().len();
        assert(lj == byte_len(texts(words@)[j as int]));
        assert(lk == byte_len(texts(words@)[k as int]));
        assert(li == byte_len(texts(words@)[i as int]));
        assert(words@[k as int]@ == texts(words@)[k as int]);
        set_contains(&self.linked_words, words[k].as_str()) || (!self.is_linked(j) && (lj as u128
            >= 4 * (lk as u128) || (li == 1 && (rels[j] > rels[k] || is_all_numbers(
            words[k].as_str(),
        )))))
    }

    fn lead(
        &mut self,
        words: &Vec<String>,
        rels: &Vec<u128>,
        stops: &FnvHashSet<usize>,
        synonyms: &FnvHashMap<usize, String>,
    )
        requires
            old(self).ok(texts(words@)),
            words.len() == rels.len(),
            words.len() >= 2,
            weights_within(rels@, MAX_WEIGHT as int),
        ensures
            final(self).ok(texts(words@)),
            final(self)@ == lead_step(
                old(self)@,
                texts(words@),
                rels@,
                flags_of(index_set(*stops), words.len() as int),
                overlay_map(*synonyms),
            ),
            forall|cap: int|
                3 * MAX_WEIGHT <= cap && list_within(old(self)@.list, cap) ==> list_within(
                    final(self)@.list,
                    cap,
                ),
    {
        let last = words.len() - 1;
        self.pass_over(1);
        if !index_set_contains(stops, 1) || 1 == last {
            self.emit2(words, rels, 0, 1, synonyms);
        } else {
            self.emit3(words, rels, 0, 1, 2, synonyms);
            if index_set_contains(stops, 2) {
                self.pass_over(2);
            }
        }
    }

    fn inner(
        &mut self,
        words: &Vec<String>,
        rels: &Vec<u128>,
        stops: &FnvHashSet<usize>,
        i: usize,
        synonyms: &FnvHashMap<usize, String>,
    )
        requires
            old(self).ok(texts(words@)),
            words.len() == rels.len(),
            0 < i,
            i + 1 < words.len(),
            weights_within(rels@, MAX_WEIGHT as int),
        ensures
            final(self).ok(texts(words@)),
            final(self)@ == inner_step(
                old(self)@,
                texts(words@),
                rels@,
                flags_of(index_set(*stops), words.len() as int),
                overlay_map(*synonyms),
                i as int,
            ),
            forall|cap: int|
                3 * MAX_WEIGHT <= cap && list_within(old(self)@.list, cap) ==> list_within(
                    final(self)@.list,
                    cap,
                ),
    {
        let last = words.len() - 1;
        let j = i - 1;
        let k = i + 1;
        let stop_j = index_set_contains(stops, j);
        let stop_k = index_set_contains(stops, k);
        if !stop_j && stop_k {
            if k < last && !index_set_contains(stops, k + 1) && rels[k + 1] >= rels[j] {
                self.solo_if_unlinked(words, rels, j, synonyms);
                self.pass_over(k);
                self.pass_over(k + 1);
                self.emit3(words, rels, i, k, k + 1, synonyms);
            } else if k < last && rels[j] > rels[k + 1] && !self.is_linked(j) {
                self.emit2(words, rels, j, i, synonyms);
            } else {
                self.pass_over(k);
                self.emit2(words, rels, i, k, synonyms);
            }
        } else if stop_j && !stop_k {
            self.emit2(words, rels, i, k, synonyms);
        } else if stop_j && stop_k {
            if k == last || index_set_contains(stops, k + 1) {
                self.pass_over(k);
                self.emit2(words, rels, i, k, synonyms);
            } else {
                self.pass_over(k);
                self.pass_over(k + 1);
                self.emit3(words, rels, i, k, k + 1, synonyms);
            }
        } else {
            if self.goes_left(words, rels, i) {
                self.emit2(words, rels, j, i, synonyms);
            } else {
                self.solo_if_unlinked(words, rels, j, synonyms);
                self.emit2(words, rels, i, k, synonyms);
            }
        }
    }

    fn tail(
        &mut self,
        words: &Vec<String>,
        rels: &Vec<u128>,
        i: usize,
        synonyms: &FnvHashMap<usize, String>,
    )
        requires
            old(self).ok(texts(words@)),
            words.len() == rels.len(),
            0 < i < words.len(),
            weights_within(rels@, MAX_WEIGHT as int),
            list_within(old(self)@.list, MAX_GRAM_WEIGHT - MAX_WEIGHT),
        ensures
            final(self).ok(texts(words@)),
            final(self)@ == tail_step(
                old(self)@,
                texts(words@),
                rels@,
                overlay_map(*synonyms),
                i as int,
            ),
            forall|cap: int|
                3 * MAX_WEIGHT <= cap && list_within(old(self)@.list, cap) ==> list_within(
                    final(self)@.list,
                    cap + MAX_WEIGHT,
                ),
    {
        let j = i - 1;
        if !self.is_linked(j) {
            self.emit2(words, rels, j, i, synonyms);
        } else {
            self.merge(words, rels, i, synonyms);
        }
    }
}

/// Builds the stop-n-grams of a query: each stop word is joined to one or two
/// of its neighbours, in the order of the stop words, and each word that no
/// stop word took becomes an n-gram of its own.
pub fn get_stop_ngrams(
    words: &Vec<String>,
    rels: &Vec<u128>,
    word_idx: &mut Vec<usize>,
    stop_idx: &Vec<usize>,
    synonyms: &FnvHashMap<usize, String>,
    mode: ParseMode,
) -> (r: StopNgrams)
    requires
        1 <= words.len(),
        words.len() == rels.len(),
        stop_idx.len() <= WORDS_PER_QUERY,
        stop_idx.len() > 0 ==> words.len() >= 2,
        indices_within(old(word_idx)@, words.len() as int),
        indices_within(stop_idx@, words.len() as int),
        weights_within(rels@, MAX_WEIGHT as int),
    ensures
        r.wf(),
        r@ == stop_list(
            texts(words@),
            rels@,
            old(word_idx)@,
            stop_idx@,
            overlay_map(*synonyms),
            mode,
        ),
        list_within(r@, MAX_GRAM_WEIGHT as int),
        final(word_idx)@.len() == 0,
{
    let len = words.len();
    let ghost tokens = texts(words@);
    let ghost ov = overlay_map(*synonyms);
    let ghost listed = word_idx@;
    let stop_idx_set = index_set_of(stop_idx);
    assert forall|x: int| 0 <= x < len implies flags_of(index_set(stop_idx_set), len as int)[x]
        == stop_flags(stop_idx@, len as int)[x] by {
        assert(stop_idx@.to_set().contains(x as usize) <==> stop_idx@.contains(x as usize));
    }
    assert(flags_of(index_set(stop_idx_set), len as int) =~= stop_flags(stop_idx@, len as int));
    let mut sc = Scanner {
        list: StopNgrams::with_capacity(len, mode),
        linked: index_set_new(),
        linked_words: set_new(),
        skip: index_set_new(),
        len: len,
    };
    assert(sc.list.ngrams.len() == sc.list@.grams.len());
    assert(sc@.linked =~= initial(len as int, mode).linked);
    assert(sc@.skip =~= initial(len as int, mode).skip);
    assert(sc@ == initial(len as int, mode));
    let mut n: usize = 0;
    while n < stop_idx.len()
        invariant
            n <= stop_idx.len(),
            len == words.len(),
            1 <= len,
            stop_idx.len() > 0 ==> len >= 2,
            words.len() == rels.len(),
            stop_idx.len() <= WORDS_PER_QUERY,
            word_idx@ == listed,
            tokens == texts(words@),
            ov == overlay_map(*synonyms),
            indices_within(listed, len as int),
            indices_within(stop_idx@, len as int),
            weights_within(rels@, MAX_WEIGHT as int),
            flags_of(index_set(stop_idx_set), len as int) == stop_flags(stop_idx@, len as int),
            sc.ok(tokens),
            sc@ == scanned(tokens, rels@, listed, stop_idx@, ov, mode, n as int),
            list_within(sc@.list, (3 + n) * MAX_WEIGHT),
        decreases stop_idx.len() - n,
    {
        let i = stop_idx[n];
        let ghost before = sc@;
        if !sc.is_skipped(i) {
            if i == 0 {
                sc.lead(words, rels, &stop_idx_set, synonyms);
            } else {
                sc.drain(words, rels, word_idx, i - 1, synonyms);
                if i < len - 1 {
                    sc.inner(words, rels, &stop_idx_set, i, synonyms);
                } else {
                    sc.tail(words, rels, i, synonyms);
                }
            }
        }
        assert(sc@ == step(
            before,
            tokens,
            rels@,
            listed,
            stop_flags(stop_idx@, len as int),
            ov,
            i as int,
        ));
        assert(list_within(sc@.list, (3 + n + 1) * MAX_WEIGHT));
        n += 1;
    }
    sc.drain(words, rels, word_idx, len, synonyms);
    word_idx.clear();
    sc.list
}

/// Some n-gram of the list holds the token at `x`.
pub open spec fn in_some_gram(list: StopList, x: int) -> bool {
    exists|p: int| 0 <= p < list.grams.len() && (#[trigger] list.grams[p]).indices.contains(x as usize)
}

/// The state of a walk over `len` tokens is sound: a stop word that the walk
/// passes over is in an n-gram, and so is every token flagged as linked.
pub open spec fn sound(s: Scan, len: int) -> bool {
    &&& s.linked.len() == len
    &&& s.skip.len() == len
    &&& forall|x: int| 0 <= x < len && #[trigger] s.skip[x] ==> s.linked[x]
    &&& forall|x: int| 0 <= x < len && #[trigger] s.linked[x] ==> in_some_gram(s.list, x)
}

/// The second state has every token linked that the first has.
pub open spec fn keeps_linked(s: Scan, t: Scan) -> bool {
    forall|x: int| 0 <= x < s.linked.len() && #[trigger] s.linked[x] ==> t.linked[x]
}

/// Making an n-gram of one, two or three tokens links them, and keeps what
/// was linked; the state stays sound where every stop word passed over is
/// linked afterwards.
pub proof fn lemma_emit_links(
    s: Scan,
    tokens: Seq<Seq<char>>,
    rels: Seq<u128>,
    ov: Map<usize, Seq<char>>,
    ix: Seq<usize>,
    len: int,
)
    requires
        s.linked.len() == len,
        s.skip.len() == len,
        forall|x: int| 0 <= x < len && #[trigger] s.linked[x] ==> in_some_gram(s.list, x),
        forall|x: int|
            0 <= x < len && #[trigger] s.skip[x] ==> s.linked[x] || ix.contains(x as usize),
        1 <= ix.len() <= 3,
        indices_within(ix, len),
    ensures
        sound(emit(s, tokens, rels, ov, ix), len),
        keeps_linked(s, emit(s, tokens, rels, ov, ix)),
        forall|p: int|
            0 <= p < ix.len() ==> emit(s, tokens, rels, ov, ix).linked[#[trigger] ix[p] as int],
{
    let t = emit(s, tokens, rels, ov, ix);
    let g = t.list.grams[s.list.grams.len() as int];
    assert(g.indices == ix);
    assert forall|x: int| 0 <= x < len && #[trigger] t.linked[x] implies in_some_gram(
        t.list,
        x,
    ) by {
        if s.linked[x] {
            let p = choose|p: int|
                0 <= p < s.list.grams.len() && (#[trigger] s.list.grams[p]).indices.contains(
                    x as usize,
                );
            assert(t.list.grams[p].indices.contains(x as usize));
        } else {
            assert(g.indices.contains(x as usize));
        }
    }
    assert forall|p: int| 0 <= p < ix.len() implies t.linked[#[trigger] ix[p] as int] by {
        assert(ix.contains(ix[p]));
    }
}

/// Draining keeps a state sound, keeps what was linked, and links every
/// listed word that lies before the bound.
pub proof fn lemma_drained_links(
    s: Scan,
    tokens: Seq<Seq<char>>,
    rels: Seq<u128>,
    ov: Map<usize, Seq<char>>,
    word_idx: Seq<usize>,
    bound: int,
    n: int,
    len: int,
)
    requires
        sound(s, len),
        indices_within(word_idx, len),
        n <= word_idx.len(),
    ensures
        sound(drained(s, tokens, rels, ov, word_idx, bound, n), len),
        keeps_linked(s, drained(s, tokens, rels, ov, word_idx, bound, n)),
        forall|q: int|
            0 <= q < n && word_idx[q] < bound ==> drained(
                s,
                tokens,
                rels,
                ov,
                word_idx,
                bound,
                n,
            ).linked[#[trigger] word_idx[q] as int],
    decreases n,
{
    if n > 0 {
        lemma_drained_links(s, tokens, rels, ov, word_idx, bound, n - 1, len);
        let t = drained(s, tokens, rels, ov, word_idx, bound, n - 1);
        let x = word_idx[n - 1];
        if x < bound && !t.linked[x as int] {
            let one = seq![x];
            assert(one[0] == x);
            lemma_emit_links(t, tokens, rels, ov, one, len);
        }
    }
}

/// A step keeps a state sound, keeps what was linked, and links the stop
/// word it is made for.
pub proof fn lemma_step_links(
    s: Scan,
    tokens: Seq<Seq<char>>,
    rels: Seq<u128>,
    word_idx: Seq<usize>,
    stops: Seq<bool>,
    ov: Map<usize, Seq<char>>,
    i: int,
)
    requires
        sound(s, tokens.len() as int),
        2 <= tokens.len() <= usize::MAX,
        0 <= i < tokens.len(),
        indices_within(word_idx, tokens.len() as int),
    ensures
        sound(step(s, tokens, rels, word_idx, stops, ov, i), tokens.len() as int),
        keeps_linked(s, step(s, tokens, rels, word_idx, stops, ov, i)),
        step(s, tokens, rels, word_idx, stops, ov, i).linked[i],
{
    let len = tokens.len() as int;
    let last = len - 1;
    let j = i - 1;
    let k = i + 1;
    if s.skip[i] {
    } else if i == 0 {
        let s1 = skipped(s, 1);
        if !stops[1] || 1 == last {
            let ix = seq![0usize, 1usize];
            assert(ix[0] == 0 && ix[1] == 1);
            lemma_emit_links(s1, tokens, rels, ov, ix, len);
        } else {
            let ix = seq![0usize, 1usize, 2usize];
            assert(ix[0] == 0 && ix[1] == 1 && ix[2] == 2);
            lemma_emit_links(s1, tokens, rels, ov, ix, len);
        }
    } else {
        lemma_drained_links(s, tokens, rels, ov, word_idx, j, word_idx.len() as int, len);
        let d = drained(s, tokens, rels, ov, word_idx, j, word_idx.len() as int);
        if i < last {
            let near = seq![j as usize, i as usize];
            let next = seq![i as usize, k as usize];
            let far = seq![i as usize, k as usize, (k + 1) as usize];
            assert(near[0] == j && near[1] == i);
            assert(next[0] == i && next[1] == k);
            assert(far[0] == i && far[1] == k && far[2] == k + 1);
            if !d.linked[j] {
                let one = seq![j as usize];
                assert(one[0] == j);
                lemma_emit_links(d, tokens, rels, ov, one, len);
            }
            let d1 = solo_if_unlinked(d, tokens, rels, ov, j);
            if !stops[j] && stops[k] {
                if k < last && !stops[k + 1] && rels[k + 1] >= rels[j] {
                    lemma_emit_links(skipped(skipped(d1, k), k + 1), tokens, rels, ov, far, len);
                } else if k < last && rels[j] > rels[k + 1] && !d.linked[j] {
                    lemma_emit_links(d, tokens, rels, ov, near, len);
                } else {
                    lemma_emit_links(skipped(d, k), tokens, rels, ov, next, len);
                }
            } else if stops[j] && !stops[k] {
                lemma_emit_links(d, tokens, rels, ov, next, len);
            } else if stops[j] && stops[k] {
                if k == last || stops[k + 1] {
                    lemma_emit_links(skipped(d, k), tokens, rels, ov, next, len);
                } else {
                    lemma_emit_links(skipped(skipped(d, k), k + 1), tokens, rels, ov, far, len);
                }
            } else {
                if absorbs_left(d, tokens, rels, i) {
                    lemma_emit_links(d, tokens, rels, ov, near, len);
                } else {
                    lemma_emit_links(d1, tokens, rels, ov, next, len);
                }
            }
        } else {
            if !d.linked[j] {
                let near = seq![j as usize, i as usize];
                assert(near[0] == j && near[1] == i);
                lemma_emit_links(d, tokens, rels, ov, near, len);
            } else {
                lemma_merged_links(d, tokens, rels, ov, i, len);
            }
        }
    }
}

/// Joining a token to the n-gram made last keeps a state sound, keeps what
/// was linked, and links the token, where some token is linked already.
pub proof fn lemma_merged_links(
    s: Scan,
    tokens: Seq<Seq<char>>,
    rels: Seq<u128>,
    ov: Map<usize, Seq<char>>,
    i: int,
    len: int,
)
    requires
        sound(s, len),
        0 < i < len <= usize::MAX,
        s.linked[i - 1],
    ensures
        sound(merged(s, tokens, rels, ov, i), len),
        keeps_linked(s, merged(s, tokens, rels, ov, i)),
        merged(s, tokens, rels, ov, i).linked[i],
{
    let t = merged(s, tokens, rels, ov, i);
    let n = s.list.grams.len() as int;
    let one = seq![i as usize];
    assert(one[0] == i);
    assert(in_some_gram(s.list, i - 1));
    assert forall|x: int| 0 <= x < len && #[trigger] t.linked[x] implies in_some_gram(
        t.list,
        x,
    ) by {
        if s.linked[x] {
            let p = choose|p: int|
                0 <= p < s.list.grams.len() && (#[trigger] s.list.grams[p]).indices.contains(
                    x as usize,
                );
            if p == n - 1 {
                let q = choose|q: int|
                    0 <= q < s.list.grams[p].indices.len() && s.list.grams[p].indices[q]
                        == x as usize;
                assert(t.list.grams[p].indices[q] == x as usize);
            } else {
                assert(t.list.grams[p].indices.contains(x as usize));
            }
        } else {
            let q = choose|q: int| 0 <= q < one.len() && one[q] == x as usize;
            assert(x == i);
            assert(t.list.grams[n - 1].indices[s.list.grams[n - 1].indices.len() as int]
                == i as usize);
        }
    }
}

/// The walk over the first `n` stop words leaves a sound state in which each
/// of them is linked.
pub proof fn lemma_scanned_links(
    tokens: Seq<Seq<char>>,
    rels: Seq<u128>,
    word_idx: Seq<usize>,
    stop_idx: Seq<usize>,
    ov: Map<usize, Seq<char>>,
    mode: ParseMode,
    n: int,
)
    requires
        n <= stop_idx.len(),
        tokens.len() <= usize::MAX,
        stop_idx.len() > 0 ==> tokens.len() >= 2,
        indices_within(word_idx, tokens.len() as int),
        indices_within(stop_idx, tokens.len() as int),
    ensures
        sound(scanned(tokens, rels, word_idx, stop_idx, ov, mode, n), tokens.len() as int),
        forall|q: int|
            0 <= q < n ==> scanned(tokens, rels, word_idx, stop_idx, ov, mode, n).linked[
            #[trigger] stop_idx[q] as int],
    decreases n,
{
    if n > 0 {
        lemma_scanned_links(tokens, rels, word_idx, stop_idx, ov, mode, n - 1);
        lemma_step_links(
            scanned(tokens, rels, word_idx, stop_idx, ov, mode, n - 1),
            tokens,
            rels,
            word_idx,
            stop_flags(stop_idx, tokens.len() as int),
            ov,
            stop_idx[n - 1] as int,
        );
    }
}

/// Every token that is listed as a word or as a stop word is a token of some
/// stop-n-gram of the query.
pub proof fn lemma_every_token_is_in_a_stop_ngram(
    tokens: Seq<Seq<char>>,
    rels: Seq<u128>,
    word_idx: Seq<usize>,
    stop_idx: Seq<usize>,
    ov: Map<usize, Seq<char>>,
    mode: ParseMode,
)
    requires
        tokens.len() <= usize::MAX,
        stop_idx.len() > 0 ==> tokens.len() >= 2,
        indices_within(word_idx, tokens.len() as int),
        indices_within(stop_idx, tokens.len() as int),
    ensures
        forall|q: int|
            0 <= q < word_idx.len() ==> in_some_gram(
                stop_list(tokens, rels, word_idx, stop_idx, ov, mode),
                #[trigger] word_idx[q] as int,
            ),
        forall|q: int|
            0 <= q < stop_idx.len() ==> in_some_gram(
                stop_list(tokens, rels, word_idx, stop_idx, ov, mode),
                #[trigger] stop_idx[q] as int,
            ),
{
    let len = tokens.len() as int;
    let s = scanned(tokens, rels, word_idx, stop_idx, ov, mode, stop_idx.len() as int);
    lemma_scanned_links(tokens, rels, word_idx, stop_idx, ov, mode, stop_idx.len() as int);
    lemma_drained_links(s, tokens, rels, ov, word_idx, len, word_idx.len() as int, len);
}

/// Every n-gram of the list has the bag-of-words key of its tokens, the
/// tokens in rising order, joined by spaces, and has the variants of its
/// tokens.
pub open spec fn keyed(list: StopList, tokens: Seq<Seq<char>>, ov: Map<usize, Seq<char>>) -> bool {
    &&& list.alts.len() == list.grams.len()
    &&& forall|p: int|
        0 <= p < list.grams.len() ==> (#[trigger] list.grams[p]).key == bag_key(
            picked(tokens, list.grams[p].indices),
        )
    &&& forall|p: int|
        0 <= p < list.grams.len() ==> #[trigger] list.alts[p] == variants_for(
            tokens,
            list.grams[p].indices,
            list.grams[p].weight,
            ov,
            list.mode,
        )
}

/// Making an n-gram keeps the keys those of their tokens.
pub proof fn lemma_emit_keyed(
    s: Scan,
    tokens: Seq<Seq<char>>,
    rels: Seq<u128>,
    ov: Map<usize, Seq<char>>,
    ix: Seq<usize>,
)
    requires
        keyed(s.list, tokens, ov),
    ensures
        keyed(emit(s, tokens, rels, ov, ix).list, tokens, ov),
{
    if 1 <= ix.len() <= 3 {
        lemma_bow_key_is_bag_key(picked(tokens, ix));
        let t = emit(s, tokens, rels, ov, ix).list;
        assert forall|p: int| 0 <= p < t.grams.len() implies (#[trigger] t.grams[p]).key
            == bag_key(picked(tokens, t.grams[p].indices)) by {
            if p < s.list.grams.len() {
                assert(t.grams[p] == s.list.grams[p]);
            }
        }
        assert forall|p: int| 0 <= p < t.grams.len() implies #[trigger] t.alts[p] == variants_for(
            tokens,
            t.grams[p].indices,
            t.grams[p].weight,
            ov,
            t.mode,
        ) by {
            if p < s.list.grams.len() {
                assert(t.grams[p] == s.list.grams[p]);
                assert(t.alts[p] == s.list.alts[p]);
            }
        }
    }
}

/// Joining a token to the n-gram made last keeps the keys those of their
/// tokens.
pub proof fn lemma_merged_keyed(
    s: Scan,
    tokens: Seq<Seq<char>>,
    rels: Seq<u128>,
    ov: Map<usize, Seq<char>>,
    i: int,
)
    requires
        keyed(s.list, tokens, ov),
    ensures
        keyed(merged(s, tokens, rels, ov, i).list, tokens, ov),
{
    let t = merged(s, tokens, rels, ov, i).list;
    assert forall|p: int| 0 <= p < t.grams.len() implies (#[trigger] t.grams[p]).key == bag_key(
        picked(tokens, t.grams[p].indices),
    ) by {
        if p < s.list.grams.len() - 1 {
            assert(t.grams[p] == s.list.grams[p]);
        }
    }
    assert forall|p: int| 0 <= p < t.grams.len() implies #[trigger] t.alts[p] == variants_for(
        tokens,
        t.grams[p].indices,
        t.grams[p].weight,
        ov,
        t.mode,
    ) by {
        if p < s.list.grams.len() - 1 {
            assert(t.grams[p] == s.list.grams[p]);
            assert(t.alts[p] == s.list.alts[p]);
        }
    }
}

/// Draining keeps the keys those of their tokens.
pub proof fn lemma_drained_keyed(
    s: Scan,
    tokens: Seq<Seq<char>>,
    rels: Seq<u128>,
    ov: Map<usize, Seq<char>>,
    word_idx: Seq<usize>,
    bound: int,
    n: int,
)
    requires
        keyed(s.list, tokens, ov),
    ensures
        keyed(drained(s, tokens, rels, ov, word_idx, bound, n).list, tokens, ov),
    decreases n,
{
    if n > 0 {
        lemma_drained_keyed(s, tokens, rels, ov, word_idx, bound, n - 1);
        lemma_emit_keyed(
            drained(s, tokens, rels, ov, word_idx, bound, n - 1),
            tokens,
            rels,
            ov,
            seq![word_idx[n - 1]],
        );
    }
}

/// A step keeps the keys those of their tokens.
pub proof fn lemma_step_keyed(
    s: Scan,
    tokens: Seq<Seq<char>>,
    rels: Seq<u128>,
    word_idx: Seq<usize>,
    stops: Seq<bool>,
    ov: Map<usize, Seq<char>>,
    i: int,
)
    requires
        keyed(s.list, tokens, ov),
    ensures
        keyed(step(s, tokens, rels, word_idx, stops, ov, i).list, tokens, ov),
{
    let j = i - 1;
    let k = i + 1;
    let s1 = skipped(s, 1);
    lemma_emit_keyed(s1, tokens, rels, ov, seq![0usize, 1usize]);
    lemma_emit_keyed(s1, tokens, rels, ov, seq![0usize, 1usize, 2usize]);
    lemma_drained_keyed(s, tokens, rels, ov, word_idx, j, word_idx.len() as int);
    let d = drained(s, tokens, rels, ov, word_idx, j, word_idx.len() as int);
    let near = seq![j as usize, i as usize];
    let next = seq![i as usize, k as usize];
    let far = seq![i as usize, k as usize, (k + 1) as usize];
    lemma_emit_keyed(d, tokens, rels, ov, seq![j as usize]);
    let d1 = solo_if_unlinked(d, tokens, rels, ov, j);
    lemma_emit_keyed(skipped(skipped(d1, k), k + 1), tokens, rels, ov, far);
    lemma_emit_keyed(d, tokens, rels, ov, near);
    lemma_emit_keyed(skipped(d, k), tokens, rels, ov, next);
    lemma_emit_keyed(d, tokens, rels, ov, next);
    lemma_emit_keyed(skipped(skipped(d, k), k + 1), tokens, rels, ov, far);
    lemma_emit_keyed(d1, tokens, rels, ov, next);
    lemma_merged_keyed(d, tokens, rels, ov, i);
}

/// The walk over the first `n` stop words leaves every key that of its
/// tokens.
pub proof fn lemma_scanned_keyed(
    tokens: Seq<Seq<char>>,
    rels: Seq<u128>,
    word_idx: Seq<usize>,
    stop_idx: Seq<usize>,
    ov: Map<usize, Seq<char>>,
    mode: ParseMode,
    n: int,
)
    ensures
        keyed(scanned(tokens, rels, word_idx, stop_idx, ov, mode, n).list, tokens, ov),
    decreases n,
{
    if n > 0 {
        lemma_scanned_keyed(tokens, rels, word_idx, stop_idx, ov, mode, n - 1);
        lemma_step_keyed(
            scanned(tokens, rels, word_idx, stop_idx, ov, mode, n - 1),
            tokens,
            rels,
            word_idx,
            stop_flags(stop_idx, tokens.len() as int),
            ov,
            stop_idx[n - 1] as int,
        );
    }
}

/// The key of every stop-n-gram of a query is its tokens in sorted order,
/// joined by spaces: the sorted tokens are as many as the n-gram has indices
/// and hold each of its tokens as often as the n-gram does.
pub proof fn lemma_stop_ngram_keys_are_sorted(
    tokens: Seq<Seq<char>>,
    rels: Seq<u128>,
    word_idx: Seq<usize>,
    stop_idx: Seq<usize>,
    ov: Map<usize, Seq<char>>,
    mode: ParseMode,
    p: int,
)
    requires
        0 <= p < stop_list(tokens, rels, word_idx, stop_idx, ov, mode).grams.len(),
    ensures
        ({
            let g = stop_list(tokens, rels, word_idx, stop_idx, ov, mode).grams[p];
            let words = picked(tokens, g.indices);
            let sorted = in_rising_order(words);
            &&& g.key == joined(sorted)
            &&& in_order(sorted)
            &&& sorted.to_multiset() == words.to_multiset()
        }),
{
    lemma_scanned_keyed(tokens, rels, word_idx, stop_idx, ov, mode, stop_idx.len() as int);
    lemma_drained_keyed(
        scanned(tokens, rels, word_idx, stop_idx, ov, mode, stop_idx.len() as int),
        tokens,
        rels,
        ov,
        word_idx,
        tokens.len() as int,
        word_idx.len() as int,
    );
    let g = stop_list(tokens, rels, word_idx, stop_idx, ov, mode).grams[p];
    lemma_rising_order_is_sorted(picked(tokens, g.indices));
}

/// Every variant of a stop-n-gram of a query has the indices and the weight
/// of the stop-n-gram, and as key the bag-of-words key of its tokens with one
/// of them replaced by its alternate.
pub proof fn lemma_variants_match_their_ngram(
    tokens: Seq<Seq<char>>,
    rels: Seq<u128>,
    word_idx: Seq<usize>,
    stop_idx: Seq<usize>,
    ov: Map<usize, Seq<char>>,
    mode: ParseMode,
    p: int,
    q: int,
)
    requires
        0 <= p < stop_list(tokens, rels, word_idx, stop_idx, ov, mode).grams.len(),
        0 <= q < stop_list(tokens, rels, word_idx, stop_idx, ov, mode).alts[p].len(),
    ensures
        ({
            let list = stop_list(tokens, rels, word_idx, stop_idx, ov, mode);
            let g = list.grams[p];
            let v = list.alts[p][q];
            &&& v.indices == g.indices
            &&& v.weight == g.weight
            &&& exists|at: int|
                0 <= at < g.indices.len() && ov.contains_key(g.indices[at]) && v.key == bag_key(
                    #[trigger] picked(tokens, g.indices).update(at, ov[g.indices[at]]),
                )
        }),
{
    lemma_stop_list_keyed(tokens, rels, word_idx, stop_idx, ov, mode);
    let list = stop_list(tokens, rels, word_idx, stop_idx, ov, mode);
    let g = list.grams[p];
    assert(list.alts[p] == variants_for(tokens, g.indices, g.weight, ov, list.mode));
    lemma_variants_are_of_their_ngram(
        tokens,
        g.indices,
        g.weight,
        ov,
        g.indices.len() as int,
        q,
    );
}

/// Every stop-n-gram of a query has the bag-of-words key of its tokens and
/// the variants of its tokens.
pub proof fn lemma_stop_list_keyed(
    tokens: Seq<Seq<char>>,
    rels: Seq<u128>,
    word_idx: Seq<usize>,
    stop_idx: Seq<usize>,
    ov: Map<usize, Seq<char>>,
    mode: ParseMode,
)
    ensures
        keyed(stop_list(tokens, rels, word_idx, stop_idx, ov, mode), tokens, ov),
{
    lemma_scanned_keyed(tokens, rels, word_idx, stop_idx, ov, mode, stop_idx.len() as int);
    lemma_drained_keyed(
        scanned(tokens, rels, word_idx, stop_idx, ov, mode, stop_idx.len() as int),
        tokens,
        rels,
        ov,
        word_idx,
        tokens.len() as int,
        word_idx.len() as int,
    );
}

} // verus!
