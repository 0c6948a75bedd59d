use crate::bow::{
    bag_key, bag_of, bow2, bow2_key, bow3, bow3_key, lemma_bag_key_of_one,
    lemma_bag_key_of_three, lemma_bag_key_of_two,
};
use crate::chars::{clone_indices, clone_words, texts};
use crate::lookup::{overlay_get, overlay_map};
use crate::model::{Gram, ParseMode, MAX_WEIGHT};
use fnv::FnvHashMap;
use vstd::prelude::*;

verus! {

/// An n-gram that absorbs a stop word, or a lone word between such n-grams.
#[derive(Debug)]
pub struct StopNgram {
    /// The key: the words of the n-gram as a bag of words.
    pub ngram: String,
    /// The numerator of the weight: the sum of those of its tokens.
    pub relev: u128,
    /// The indices of its tokens.
    pub word_indices: Vec<usize>,
}

impl View for StopNgram {
    type V = Gram;

    open spec fn view(&self) -> Gram {
        Gram { key: self.ngram@, weight: self.relev as int, indices: self.word_indices@ }
    }
}

impl StopNgram {
    /// An n-gram with the given key, weight and token indices.
    pub fn new(ngram: String, relev: u128, word_indices: Vec<usize>) -> (r: Self)
        ensures
            r@ == (Gram { key: ngram@, weight: relev as int, indices: word_indices@ }),
    {
        StopNgram { ngram: ngram, relev: relev, word_indices: word_indices }
    }

    /// Number of tokens in the n-gram.
    pub fn len(&self) -> (n: usize)
        ensures
            n == self@.indices.len(),
    {
        self.word_indices.len()
    }
}

/// The values of a list of n-grams.
pub open spec fn grams(v: Seq<StopNgram>) -> Seq<Gram> {
    Seq::new(v.len(), |i: int| v[i]@)
}

/// The lists of variants that a map holds, by the position of their n-gram.
pub uninterp spec fn variants_map(m: FnvHashMap<usize, Vec<StopNgram>>) -> Map<usize, Seq<Gram>>;

/// The variants of the first `len` n-grams: those that the map holds for a
/// position, none for a position without an entry.
pub open spec fn variant_lists(vm: Map<usize, Seq<Gram>>, len: nat) -> Seq<Seq<Gram>> {
    Seq::new(
        len,
        |p: int|
            if vm.contains_key(p as usize) {
                vm[p as usize]
            } else {
                Seq::empty()
            },
    )
}

/// `FnvHashMap::default`: a map of variants without entries.
#[verifier::external_body]
pub(crate) fn variants_new() -> (r: FnvHashMap<usize, Vec<StopNgram>>)
    ensures
        variants_map(r).dom() == Set::<usize>::empty(),
{
    FnvHashMap::default()
}

/// `HashMap::insert` on a map of variants: the entry for the position is
/// set, the others stay.
#[verifier::external_body]
pub(crate) fn variants_insert(
    m: &mut FnvHashMap<usize, Vec<StopNgram>>,
    at: usize,
    alts: Vec<StopNgram>,
)
    ensures
        variants_map(*final(m)) == variants_map(*old(m)).insert(at, grams(alts@)),
{
    m.insert(at, alts);
}

/// `HashMap::get` on a map of variants: the variants stored for a position,
/// if any.
#[verifier::external_body]
pub(crate) fn variants_get(m: &FnvHashMap<usize, Vec<StopNgram>>, at: usize) -> (r: Option<
    &Vec<StopNgram>,
>)
    ensures
        match r {
            Some(v) => variants_map(*m).contains_key(at) && variants_map(*m)[at] == grams(v@),
            None => !variants_map(*m).contains_key(at),
        },
{
    m.get(&at)
}

/// A list of stop-n-grams as a value: the n-grams in order, and for each
/// position the variants in which one token is replaced by its alternate.
pub struct StopList {
    pub grams: Seq<Gram>,
    pub alts: Seq<Seq<Gram>>,
    pub mode: ParseMode,
}

/// The stop-n-grams of a query, in the order of the stop words they absorb.
#[derive(Debug)]
pub struct StopNgrams {
    /// The n-grams, in the order in which they were made.
    pub ngrams: Vec<StopNgram>,
    /// The variants with alternates, by the position of their n-gram; none
    /// when indexing.
    pub synonyms: FnvHashMap<usize, Vec<StopNgram>>,
    /// The mode that the list was made for.
    pub mode: ParseMode,
}

impl View for StopNgrams {
    type V = StopList;

    open spec fn view(&self) -> StopList {
        StopList {
            grams: grams(self.ngrams@),
            alts: variant_lists(variants_map(self.synonyms), self.ngrams.len() as nat),
            mode: self.mode,
        }
    }
}

/// The words at the given indices.
pub open spec fn picked(tokens: Seq<Seq<char>>, ix: Seq<usize>) -> Seq<Seq<char>> {
    Seq::new(ix.len(), |p: int| tokens[ix[p] as int])
}

/// The key of one, two or three words.
pub open spec fn bow_key(ws: Seq<Seq<char>>) -> Seq<char> {
    if ws.len() == 1 {
        ws[0]
    } else if ws.len() == 2 {
        bow2_key(ws[0], ws[1])
    } else {
        bow3_key(ws[0], ws[1], ws[2])
    }
}

/// The sum of the weights at one, two or three indices.
pub open spec fn weight_at(rels: Seq<u128>, ix: Seq<usize>) -> int {
    if ix.len() == 1 {
        rels[ix[0] as int] as int
    } else if ix.len() == 2 {
        rels[ix[0] as int] + rels[ix[1] as int]
    } else {
        rels[ix[0] as int] + rels[ix[1] as int] + rels[ix[2] as int]
    }
}

/// The n-gram of the tokens at one, two or three indices.
pub open spec fn base_gram(tokens: Seq<Seq<char>>, rels: Seq<u128>, ix: Seq<usize>) -> Gram {
    Gram { key: bow_key(picked(tokens, ix)), weight: weight_at(rels, ix), indices: ix }
}

/// The variants of an n-gram of the tokens at `ix` with the weight `w`, for
/// its first `p` positions: one for each position whose token has an
/// alternate, with that alternate in its place, and with the weight and the
/// indices of the n-gram.
pub open spec fn variants_upto(
    tokens: Seq<Seq<char>>,
    ix: Seq<usize>,
    w: int,
    ov: Map<usize, Seq<char>>,
    p: int,
) -> Seq<Gram>
    decreases p,
{
    if p <= 0 {
        Seq::empty()
    } else {
        let prev = variants_upto(tokens, ix, w, ov, p - 1);
        if ov.contains_key(ix[p - 1]) {
            prev.push(
                Gram {
                    key: bag_key(picked(tokens, ix).update(p - 1, ov[ix[p - 1]])),
                    weight: w,
                    indices: ix,
                },
            )
        } else {
            prev
        }
    }
}

/// The variants that are kept with an n-gram: none when indexing.
pub open spec fn variants_for(
    tokens: Seq<Seq<char>>,
    ix: Seq<usize>,
    w: int,
    ov: Map<usize, Seq<char>>,
    mode: ParseMode,
) -> Seq<Gram> {
    if mode == ParseMode::Search {
        variants_upto(tokens, ix, w, ov, ix.len() as int)
    } else {
        Seq::empty()
    }
}

/// The variants that are kept with the n-gram of one, two or three indices.
pub open spec fn alt_grams(
    tokens: Seq<Seq<char>>,
    rels: Seq<u128>,
    ix: Seq<usize>,
    ov: Map<usize, Seq<char>>,
    mode: ParseMode,
) -> Seq<Gram> {
    variants_for(tokens, ix, weight_at(rels, ix), ov, mode)
}

/// The list after the n-gram of one, two or three indices is added at its
/// end; any other number of indices adds nothing.
pub open spec fn pushed(
    list: StopList,
    tokens: Seq<Seq<char>>,
    rels: Seq<u128>,
    ix: Seq<usize>,
    ov: Map<usize, Seq<char>>,
) -> StopList {
    if 1 <= ix.len() <= 3 {
        StopList {
            grams: list.grams.push(base_gram(tokens, rels, ix)),
            alts: list.alts.push(alt_grams(tokens, rels, ix, ov, list.mode)),
            mode: list.mode,
        }
    } else {
        list
    }
}

/// Every index is one of a token.
pub open spec fn indices_within(ix: Seq<usize>, len: int) -> bool {
    forall|p: int| 0 <= p < ix.len() ==> #[trigger] ix[p] < len
}

/// Every weight is at most `cap`.
pub open spec fn weights_within(rels: Seq<u128>, cap: int) -> bool {
    forall|p: int| 0 <= p < rels.len() ==> #[trigger] rels[p] <= cap
}

/// Every n-gram of the list, and every variant, weighs at most `cap`.
pub open spec fn list_within(list: StopList, cap: int) -> bool {
    &&& forall|p: int| 0 <= p < list.grams.len() ==> (#[trigger] list.grams[p]).weight <= cap
    &&& forall|p: int, q: int|
        0 <= p < list.alts.len() && 0 <= q < list.alts[p].len() ==> (
        #[trigger] list.alts[p][q]).weight <= cap
}

/// The key of one, two or three words.
pub fn bow_of(ws: &Vec<String>) -> (r: String)
    requires
        1 <= ws.len() <= 3,
    ensures
        r@ == bow_key(texts(ws@)),
{
    if ws.len() == 1 {
        ws[0].clone()
    } else if ws.len() == 2 {
        bow2(ws[0].as_str(), ws[1].as_str())
    } else {
        bow3(ws[0].as_str(), ws[1].as_str(), ws[2].as_str())
    }
}

/// The words at the given indices.
pub fn pick_words(words: &Vec<String>, ix: &Vec<usize>) -> (r: Vec<String>)
    requires
        indices_within(ix@, words.len() as int),
    ensures
        texts(r@) == picked(texts(words@), ix@),
{
    let mut r: Vec<String> = Vec::new();
    let mut p: usize = 0;
    while p < ix.len()
        invariant
            p <= ix.len(),
            indices_within(ix@, words.len() as int),
            r.len() == p,
            forall|q: int| 0 <= q < p ==> (#[trigger] r@[q])@ == words@[ix@[q] as int]@,
        decreases ix.len() - p,
    {
        r.push(words[ix[p]].clone());
        p += 1;
    }
    r
}

fn sum_weights(rels: &Vec<u128>, ix: &Vec<usize>) -> (r: u128)
    requires
        1 <= ix.len() <= 3,
        indices_within(ix@, rels.len() as int),
        weights_within(rels@, MAX_WEIGHT as int),
    ensures
        r == weight_at(rels@, ix@),
        r <= 3 * MAX_WEIGHT,
{
    if ix.len() == 1 {
        rels[ix[0]]
    } else if ix.len() == 2 {
        rels[ix[0]] + rels[ix[1]]
    } else {
        rels[ix[0]] + rels[ix[1]] + rels[ix[2]]
    }
}

/// `HashMap::remove` on a map of variants: the position has no entry, the
/// others stay.
#[verifier::external_body]
pub(crate) fn variants_remove(m: &mut FnvHashMap<usize, Vec<StopNgram>>, at: usize)
    ensures
        variants_map(*final(m)) == variants_map(*old(m)).remove(at),
{
    m.remove(&at);
}

/// The variants that are kept with an n-gram of the tokens at `indices` with
/// the weight `w`.
pub fn variants_of(
    words: &Vec<String>,
    indices: &Vec<usize>,
    w: u128,
    synonyms: &FnvHashMap<usize, String>,
    mode: ParseMode,
) -> (r: Vec<StopNgram>)
    requires
        indices_within(indices@, words.len() as int),
    ensures
        grams(r@) == variants_for(
            texts(words@),
            indices@,
            w as int,
            overlay_map(*synonyms),
            mode,
        ),
{
    let ghost tokens = texts(words@);
    let ghost ov = overlay_map(*synonyms);
    let mut alts: Vec<StopNgram> = Vec::new();
    if mode == ParseMode::Search {
        let ws = pick_words(words, indices);
        let n = indices.len();
        assert(ws.len() == texts(ws@).len());
        let mut p: usize = 0;
        assert(grams(alts@) =~= variants_upto(tokens, indices@, w as int, ov, 0));
        while p < n
            invariant
                p <= n,
                n == indices.len(),
                ws.len() == n,
                texts(ws@) == picked(tokens, indices@),
                ov == overlay_map(*synonyms),
                grams(alts@) == variants_upto(tokens, indices@, w as int, ov, p as int),
            decreases n - p,
        {
            let ghost before = grams(alts@);
            match overlay_get(synonyms, indices[p]) {
                Some(syn) => {
                    let mut vs = clone_words(&ws);
                    vs.set(p, syn);
                    assert(texts(vs@) =~= picked(tokens, indices@).update(p as int, syn@));
                    let key = bag_of(&vs);
                    let g = StopNgram::new(key, w, clone_indices(indices));
                    alts.push(g);
                    assert(grams(alts@) =~= before.push(g@));
                },
                None => {},
            }
            p += 1;
        }
    } else {
        assert(grams(alts@) =~= Seq::empty());
    }
    alts
}

impl StopNgrams {
    /// Variants are held for n-grams of the list only.
    pub open spec fn wf(&self) -> bool {
        forall|p: usize|
            variants_map(self.synonyms).contains_key(p) ==> p < self.ngrams.len()
    }

    /// An empty list for the given mode.
    pub fn with_capacity(capacity: usize, mode: ParseMode) -> (r: Self)
        ensures
            r.wf(),
            r@ == (StopList { grams: Seq::empty(), alts: Seq::empty(), mode: mode }),
    {
        let r = StopNgrams {
            ngrams: Vec::with_capacity(capacity),
            synonyms: variants_new(),
            mode: mode,
        };
        assert(r@.grams =~= Seq::empty());
        assert(r@.alts =~= Seq::empty());
        r
    }

    /// Adds the n-gram of the tokens at `indices`, and, when searching, its
    /// variants with alternates.
    pub fn update(
        &mut self,
        words: &Vec<String>,
        rels: &Vec<u128>,
        indices: Vec<usize>,
        synonyms: &FnvHashMap<usize, String>,
    )
        requires
            old(self).wf(),
            words.len() == rels.len(),
            indices_within(indices@, words.len() as int),
            weights_within(rels@, MAX_WEIGHT as int),
        ensures
            final(self).wf(),
            final(self)@ == pushed(
                old(self)@,
                texts(words@),
                rels@,
                indices@,
                overlay_map(*synonyms),
            ),
            forall|cap: int|
                3 * MAX_WEIGHT <= cap && list_within(old(self)@, cap) ==> list_within(
                    final(self)@,
                    cap,
                ),
    {
        let n = indices.len();
        if n == 0 || n > 3 {
            return ;
        }
        let ghost tokens = texts(words@);
        let ghost ov = overlay_map(*synonyms);
        let ws = pick_words(words, &indices);
        let w = sum_weights(rels, &indices);
        let alts = variants_of(words, &indices, w, synonyms, self.mode);
        let key = bow_of(&ws);
        let ghost old_grams = grams(self.ngrams@);
        let ghost old_alts = self@.alts;
        let ghost given = grams(alts@);
        let at = self.ngrams.len();
        let g = StopNgram::new(key, w, indices);
        self.ngrams.push(g);
        if alts.len() > 0 {
            variants_insert(&mut self.synonyms, at, alts);
        }
        assert(grams(self.ngrams@) =~= old_grams.push(g@));
        proof {
            let vm = variants_map(self.synonyms);
            assert forall|q: int| 0 <= q < given.len() implies (#[trigger] given[q]).weight
                == w by {
                if self.mode == ParseMode::Search {
                    lemma_variants_are_of_their_ngram(
                        tokens,
                        g@.indices,
                        w as int,
                        ov,
                        g@.indices.len() as int,
                        q,
                    );
                }
            }
            if given.len() == 0 {
                assert(given =~= Seq::empty());
            }
            assert forall|q: int| 0 <= q < self@.alts.len() implies self@.alts[q] == old_alts.push(
                given,
            )[q] by {
                if q < at {
                    assert(old_alts[q] == self@.alts[q]);
                }
            }
            assert(self@.alts =~= old_alts.push(given));
        }
    }

    /// Number of n-grams in the list.
    pub fn len(&self) -> (n: usize)
        ensures
            n == self@.grams.len(),
    {
        self.ngrams.len()
    }

    /// The n-gram at `idx`.
    pub fn index(&self, idx: usize) -> (r: &StopNgram)
        requires
            idx < self.ngrams.len(),
        ensures
            r@ == self@.grams[idx as int],
            *r == self.ngrams@[idx as int],
    {
        &self.ngrams[idx]
    }
}

/// Every variant of an n-gram has the indices and the weight of the n-gram,
/// and as key the bag-of-words key of its tokens with one of them replaced by
/// its alternate.
pub proof fn lemma_variants_are_of_their_ngram(
    tokens: Seq<Seq<char>>,
    ix: Seq<usize>,
    w: int,
    ov: Map<usize, Seq<char>>,
    p: int,
    q: int,
)
    requires
        0 <= q < variants_upto(tokens, ix, w, ov, p).len(),
    ensures
        variants_upto(tokens, ix, w, ov, p)[q].indices == ix,
        variants_upto(tokens, ix, w, ov, p)[q].weight == w,
        exists|at: int|
            0 <= at < p && ov.contains_key(ix[at]) && variants_upto(tokens, ix, w, ov, p)[q].key
                == bag_key(#[trigger] picked(tokens, ix).update(at, ov[ix[at]])),
    decreases p,
{
    if p > 0 {
        let before = variants_upto(tokens, ix, w, ov, p - 1);
        if q < before.len() {
            lemma_variants_are_of_their_ngram(tokens, ix, w, ov, p - 1, q);
            let at = choose|at: int|
                0 <= at < p - 1 && ov.contains_key(ix[at]) && before[q].key == bag_key(
                    #[trigger] picked(tokens, ix).update(at, ov[ix[at]]),
                );
            assert(0 <= at < p);
        } else {
            let with = picked(tokens, ix).update(p - 1, ov[ix[p - 1]]);
            assert(variants_upto(tokens, ix, w, ov, p)[q].key == bag_key(with));
        }
    }
}

/// The key of one, two or three words is their bag-of-words key: the words
/// in rising order, joined by spaces.
pub proof fn lemma_bow_key_is_bag_key(ws: Seq<Seq<char>>)
    requires
        1 <= ws.len() <= 3,
    ensures
        bow_key(ws) == bag_key(ws),
{
    if ws.len() == 1 {
        assert(ws =~= seq![ws[0]]);
        lemma_bag_key_of_one(ws[0]);
    } else if ws.len() == 2 {
        assert(ws =~= seq![ws[0], ws[1]]);
        lemma_bag_key_of_two(ws[0], ws[1]);
    } else {
        assert(ws =~= seq![ws[0], ws[1], ws[2]]);
        lemma_bag_key_of_three(ws[0], ws[1], ws[2]);
    }
}

} // verus!
