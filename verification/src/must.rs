use crate::lookup::{
    index_set, index_set_contains, index_set_insert, index_set_list, index_set_of,
};
use crate::model::{MAX_NORM, MAX_WEIGHT, WORDS_PER_QUERY};
use crate::stopgrams::{indices_within, weights_within};
use fnv::FnvHashSet;
use vstd::prelude::*;

verus! {

/// The must-have choice as a value: the token picked to stand for the query
/// (the number of tokens where none is), and the indices that a match must hold.
pub struct Must {
    pub word: int,
    pub have: Set<usize>,
}

/// The denominator of the word threshold: the threshold is one over the
/// larger of two and the number of tokens less one.
pub open spec fn threshold_den(len: int) -> int {
    if len - 1 > 2 {
        len - 1
    } else {
        2
    }
}

/// The first place among the first `n` of the order whose token is no number
/// and not yet a must-have; -1 where there is none.
pub open spec fn first_free(
    order: Seq<usize>,
    numerics: Set<usize>,
    have: Set<usize>,
    n: int,
) -> int
    decreases n,
{
    if n <= 0 {
        -1
    } else {
        let f = first_free(order, numerics, have, n - 1);
        if f >= 0 {
            f
        } else if !numerics.contains(order[n - 1]) && !have.contains(order[n - 1]) {
            n - 1
        } else {
            -1
        }
    }
}

/// The second token of the order is not a must-have and weighs less than the
/// given share of the first: 0.78 of it in queries of more than four tokens,
/// else 0.85.
pub open spec fn second_is_weak(
    order: Seq<usize>,
    rels: Seq<u128>,
    have: Set<usize>,
    len: int,
) -> bool {
    let w0 = rels[order[0] as int];
    let w1 = rels[order[1] as int];
    !have.contains(order[1]) && if len > 4 {
        50 * w1 < 39 * w0
    } else {
        20 * w1 < 17 * w0
    }
}

/// The must-have choice. The weights are numerators over `norm`.
pub open spec fn must_choice(
    order: Seq<usize>,
    rels: Seq<u128>,
    norm: int,
    seed: Seq<usize>,
    numerics: Set<usize>,
    len: int,
) -> Must {
    let have = seed.to_set();
    let word = if seed.len() > 0 {
        seed[0] as int
    } else {
        len
    };
    let top = order[0];
    let w0 = rels[top as int];
    let m = threshold_den(len);
    if 20 * w0 * m > 37 * norm || (len > 1 && 5 * w0 > 3 * norm) {
        Must { word: top as int, have: have.insert(top) }
    } else if len > 2 && w0 * m > norm && rels[order[2] as int] * m < norm {
        Must { word: top as int, have: have.insert(top) }
    } else if len <= 3 && seed.len() > 0 {
        Must { word: word, have: have.insert(top) }
    } else if len <= 6 && second_is_weak(order, rels, have, len) {
        let f = first_free(order, numerics, have, order.len() as int);
        if f >= 0 {
            Must { word: order[f] as int, have: have.insert(order[f]) }
        } else {
            Must { word: word, have: have }
        }
    } else {
        Must { word: word, have: have }
    }
}

/// The first place in the order whose token is no number and not yet a
/// must-have.
pub fn find_free(order: &Vec<usize>, numerics: &FnvHashSet<usize>, have: &FnvHashSet<usize>) -> (r:
    Option<usize>)
    ensures
        match r {
            Some(q) => q < order.len() && first_free(
                order@,
                index_set(*numerics),
                index_set(*have),
                order.len() as int,
            ) == q,
            None => first_free(order@, index_set(*numerics), index_set(*have), order.len() as int)
                == -1,
        },
{
    let mut q: usize = 0;
    while q < order.len()
        invariant
            q <= order.len(),
            first_free(order@, index_set(*numerics), index_set(*have), q as int) == -1,
        decreases order.len() - q,
    {
        let x = order[q];
        if !index_set_contains(numerics, x) && !index_set_contains(have, x) {
            proof {
                lemma_first_free_stays(
                    order@,
                    index_set(*numerics),
                    index_set(*have),
                    q + 1,
                    order.len() as int,
                );
            }
            return Some(q);
        }
        q += 1;
    }
    None
}

/// Whether the second token of the order is not a must-have and weighs less
/// than the given share of the first.
pub fn must_have_top_word(
    must_have: &FnvHashSet<usize>,
    order: &Vec<usize>,
    rels: &Vec<u128>,
    words_len: usize,
) -> (r: bool)
    requires
        order.len() >= 2,
        indices_within(order@, rels.len() as int),
        weights_within(rels@, MAX_WEIGHT as int),
    ensures
        r == second_is_weak(order@, rels@, index_set(*must_have), words_len as int),
{
    let w0 = rels[order[0]];
    let w1 = rels[order[1]];
    !index_set_contains(must_have, order[1]) && if words_len > 4 {
        50 * w1 < 39 * w0
    } else {
        20 * w1 < 17 * w0
    }
}

/// Picks the tokens that a matching query must hold, from the tokens by
/// falling weight, the seed of must-haves and the tokens that hold a number.
/// Returns the token picked to stand for the query (`words_len` where none
/// is) and the must-have indices, each once, in no fixed order.
pub fn find_must_have_words(
    order: &Vec<usize>,
    rels: &Vec<u128>,
    norm: u128,
    must_have: &Vec<usize>,
    numerics: &FnvHashSet<usize>,
    words_len: usize,
) -> (r: (usize, Vec<usize>))
    requires
        2 <= words_len <= WORDS_PER_QUERY,
        order.len() == words_len,
        indices_within(order@, rels.len() as int),
        weights_within(rels@, MAX_WEIGHT as int),
        norm <= MAX_NORM,
    ensures
        r.0 == must_choice(
            order@,
            rels@,
            norm as int,
            must_have@,
            index_set(*numerics),
            words_len as int,
        ).word,
        r.1@.to_set() == must_choice(
            order@,
            rels@,
            norm as int,
            must_have@,
            index_set(*numerics),
            words_len as int,
        ).have,
        r.1@.no_duplicates(),
{
    let mut have = index_set_of(must_have);
    let mut word: usize = words_len;
    if must_have.len() > 0 {
        word = must_have[0];
    }
    let top = order[0];
    let w0 = rels[top];
    let m: u128 = if words_len - 1 > 2 {
        (words_len - 1) as u128
    } else {
        2
    };
    assert(20 * w0 * m <= 300 * MAX_WEIGHT) by (nonlinear_arith)
        requires
            w0 <= MAX_WEIGHT,
            m <= 15,
    ;
    if 20 * w0 * m > 37 * norm || (words_len > 1 && 5 * w0 > 3 * norm) {
        index_set_insert(&mut have, top);
        return (top, index_set_list(&have));
    }
    let third_low = if words_len > 2 {
        let w2 = rels[order[2]];
        assert(w2 * m <= 15 * MAX_WEIGHT) by (nonlinear_arith)
            requires
                w2 <= MAX_WEIGHT,
                m <= 15,
        ;
        assert(w0 * m <= 15 * MAX_WEIGHT) by (nonlinear_arith)
            requires
                w0 <= MAX_WEIGHT,
                m <= 15,
        ;
        w0 * m > norm && w2 * m < norm
    } else {
        false
    };
    if third_low {
        index_set_insert(&mut have, top);
        return (top, index_set_list(&have));
    }
    if words_len <= 3 && must_have.len() > 0 {
        index_set_insert(&mut have, top);
        return (word, index_set_list(&have));
    }
    if words_len <= 6 && must_have_top_word(&have, order, rels, words_len) {
        match find_free(order, numerics, &have) {
            Some(q) => {
                let x = order[q];
                index_set_insert(&mut have, x);
                return (x, index_set_list(&have));
            },
            None => {},
        }
        return (word, index_set_list(&have));
    }
    (word, index_set_list(&have))
}

/// Once a free place is found among the first `n`, it is the answer for
/// every longer prefix.
pub proof fn lemma_first_free_stays(
    order: Seq<usize>,
    numerics: Set<usize>,
    have: Set<usize>,
    n: int,
    m: int,
)
    requires
        0 <= n <= m,
        first_free(order, numerics, have, n) >= 0,
    ensures
        first_free(order, numerics, have, m) == first_free(order, numerics, have, n),
    decreases m - n,
{
    if n < m {
        lemma_first_free_stays(order, numerics, have, n, m - 1);
    }
}

} // verus!
