use crate::chars::{chars_of, texts};
use vstd::prelude::*;
use vstd::string::*;

verus! {

/// Lexicographic order on texts by code point, which is the byte order of
/// their UTF-8 encodings.
pub open spec fn lex_lt(a: Seq<char>, b: Seq<char>) -> bool
    decreases a.len(),
{
    if b.len() == 0 {
        false
    } else if a.len() == 0 {
        true
    } else if a[0] != b[0] {
        a[0] < b[0]
    } else {
        lex_lt(a.drop_first(), b.drop_first())
    }
}

/// Two texts joined by one space.
pub open spec fn spaced(a: Seq<char>, b: Seq<char>) -> Seq<char> {
    a + seq![' '] + b
}

/// The bag-of-words key of two texts: the smaller first.
pub open spec fn bow2_key(a: Seq<char>, b: Seq<char>) -> Seq<char> {
    if lex_lt(a, b) {
        spaced(a, b)
    } else {
        spaced(b, a)
    }
}

/// The bag-of-words key of three texts: the three in rising order, joined by
/// spaces.
pub open spec fn bow3_key(a: Seq<char>, b: Seq<char>, c: Seq<char>) -> Seq<char> {
    if !lex_lt(b, a) && !lex_lt(c, a) {
        spaced(a, bow2_key(b, c))
    } else if !lex_lt(a, b) && !lex_lt(c, b) {
        spaced(b, bow2_key(a, c))
    } else {
        spaced(c, bow2_key(a, b))
    }
}

/// Whether `a` sorts strictly before `b`.
pub fn str_lt(a: &str, b: &str) -> (r: bool)
    ensures
        r == lex_lt(a@, b@),
{
    let x = chars_of(a);
    let y = chars_of(b);
    let mut i: usize = 0;
    assert(a@.skip(0) =~= a@ && b@.skip(0) =~= b@);
    while i < x.len() && i < y.len()
        invariant
            i <= x.len(),
            i <= y.len(),
            x@ == a@,
            y@ == b@,
            lex_lt(a@, b@) == lex_lt(a@.skip(i as int), b@.skip(i as int)),
        decreases x.len() - i,
    {
        if x[i] != y[i] {
            return x[i] < y[i];
        }
        proof {
            assert(a@.skip(i as int).drop_first() =~= a@.skip(i + 1));
            assert(b@.skip(i as int).drop_first() =~= b@.skip(i + 1));
        }
        i += 1;
    }
    i < y.len()
}

/// `a`, one space, `b`.
pub fn join2(a: &str, b: &str) -> (r: String)
    ensures
        r@ == spaced(a@, b@),
{
    proof {
        reveal_strlit(" ");
    }
    let mut v = String::new();
    v.append(a);
    v.append(" ");
    v.append(b);
    v
}

/// Bag-of-words key of two words.
pub fn bow2(w1: &str, w2: &str) -> (r: String)
    ensures
        r@ == bow2_key(w1@, w2@),
{
    if str_lt(w1, w2) {
        join2(w1, w2)
    } else {
        join2(w2, w1)
    }
}

/// Bag-of-words key of three words.
pub fn bow3(w1: &str, w2: &str, w3: &str) -> (r: String)
    ensures
        r@ == bow3_key(w1@, w2@, w3@),
{
    if !str_lt(w2, w1) && !str_lt(w3, w1) {
        let rest = bow2(w2, w3);
        join2(w1, rest.as_str())
    } else if !str_lt(w1, w2) && !str_lt(w3, w2) {
        let rest = bow2(w1, w3);
        join2(w2, rest.as_str())
    } else {
        let rest = bow2(w1, w2);
        join2(w3, rest.as_str())
    }
}

/// The words written one after the other with a space between each two.
pub open spec fn joined(ws: Seq<Seq<char>>) -> Seq<char>
    decreases ws.len(),
{
    if ws.len() == 0 {
        Seq::empty()
    } else if ws.len() == 1 {
        ws[0]
    } else {
        joined(ws.drop_last()) + seq![' '] + ws.last()
    }
}

/// No word sorts before one that stands before it.
pub open spec fn in_order(ws: Seq<Seq<char>>) -> bool {
    forall|i: int, j: int| 0 <= i < j < ws.len() ==> !lex_lt(#[trigger] ws[j], #[trigger] ws[i])
}

/// The list holds the two words, in one order or the other.
pub open spec fn arranges2(ws: Seq<Seq<char>>, a: Seq<char>, b: Seq<char>) -> bool {
    ws == seq![a, b] || ws == seq![b, a]
}

/// The list holds the three words, in one of their six orders.
pub open spec fn arranges3(ws: Seq<Seq<char>>, a: Seq<char>, b: Seq<char>, c: Seq<char>) -> bool {
    ws == seq![a, b, c] || ws == seq![a, c, b] || ws == seq![b, a, c] || ws == seq![b, c, a] || ws
        == seq![c, a, b] || ws == seq![c, b, a]
}

/// Of two texts at most one sorts before the other.
pub proof fn lemma_lex_asymmetric(a: Seq<char>, b: Seq<char>)
    ensures
        lex_lt(a, b) ==> !lex_lt(b, a),
    decreases a.len(),
{
    if a.len() > 0 && b.len() > 0 && a[0] == b[0] {
        lemma_lex_asymmetric(a.drop_first(), b.drop_first());
    }
}

/// Two texts of which neither sorts before the other are the same text.
pub proof fn lemma_lex_total(a: Seq<char>, b: Seq<char>)
    ensures
        !lex_lt(a, b) && !lex_lt(b, a) ==> a == b,
    decreases a.len(),
{
    if !lex_lt(a, b) && !lex_lt(b, a) {
        if a.len() > 0 && b.len() > 0 {
            lemma_lex_total(a.drop_first(), b.drop_first());
            assert(a =~= seq![a[0]] + a.drop_first());
        }
    }
}

/// What sorts before a text sorts before all that the text sorts before.
pub proof fn lemma_lex_transitive(a: Seq<char>, b: Seq<char>, c: Seq<char>)
    ensures
        lex_lt(a, b) && lex_lt(b, c) ==> lex_lt(a, c),
    decreases a.len(),
{
    if lex_lt(a, b) && lex_lt(b, c) {
        if a.len() > 0 && b.len() > 0 && c.len() > 0 && a[0] == b[0] && b[0] == c[0] {
            lemma_lex_transitive(a.drop_first(), b.drop_first(), c.drop_first());
        }
    }
}

/// The key of two words is the two words in sorted order, joined by a space.
pub proof fn lemma_bow2_is_sorted_join(a: Seq<char>, b: Seq<char>)
    ensures
        exists|ws: Seq<Seq<char>>|
            #[trigger] arranges2(ws, a, b) && in_order(ws) && bow2_key(a, b) == joined(ws),
{
    lemma_lex_asymmetric(a, b);
    let ws = if lex_lt(a, b) {
        seq![a, b]
    } else {
        seq![b, a]
    };
    reveal_with_fuel(joined, 3);
    assert(arranges2(ws, a, b));
}

/// The key of three words is the three words in sorted order, joined by
/// spaces.
pub proof fn lemma_bow3_is_sorted_join(a: Seq<char>, b: Seq<char>, c: Seq<char>)
    ensures
        exists|ws: Seq<Seq<char>>|
            #[trigger] arranges3(ws, a, b, c) && in_order(ws) && bow3_key(a, b, c) == joined(ws),
{
    lemma_lex_facts(a, b, c);
    let (x, y, z) = if !lex_lt(b, a) && !lex_lt(c, a) {
        if lex_lt(b, c) {
            (a, b, c)
        } else {
            (a, c, b)
        }
    } else if !lex_lt(a, b) && !lex_lt(c, b) {
        if lex_lt(a, c) {
            (b, a, c)
        } else {
            (b, c, a)
        }
    } else {
        if lex_lt(a, b) {
            (c, a, b)
        } else {
            (c, b, a)
        }
    };
    let ws = seq![x, y, z];
    reveal_with_fuel(joined, 4);
    assert(joined(ws) =~= x + seq![' '] + y + seq![' '] + z);
    assert(bow3_key(a, b, c) =~= x + seq![' '] + y + seq![' '] + z);
    assert(!lex_lt(y, x) && !lex_lt(z, x) && !lex_lt(z, y));
    assert(arranges3(ws, a, b, c));
}

/// The order of three texts among each other: of two at most one sorts
/// before the other, two of which neither does are the same, and what sorts
/// before a text sorts before all that the text sorts before.
pub proof fn lemma_lex_facts(a: Seq<char>, b: Seq<char>, c: Seq<char>)
    ensures
        lex_lt(a, b) ==> !lex_lt(b, a),
        lex_lt(a, c) ==> !lex_lt(c, a),
        lex_lt(b, c) ==> !lex_lt(c, b),
        !lex_lt(a, b) && !lex_lt(b, a) ==> a == b,
        !lex_lt(a, c) && !lex_lt(c, a) ==> a == c,
        !lex_lt(b, c) && !lex_lt(c, b) ==> b == c,
        lex_lt(a, b) && lex_lt(b, c) ==> lex_lt(a, c),
        lex_lt(a, c) && lex_lt(c, b) ==> lex_lt(a, b),
        lex_lt(b, a) && lex_lt(a, c) ==> lex_lt(b, c),
        lex_lt(b, c) && lex_lt(c, a) ==> lex_lt(b, a),
        lex_lt(c, a) && lex_lt(a, b) ==> lex_lt(c, b),
        lex_lt(c, b) && lex_lt(b, a) ==> lex_lt(c, a),
{
    lemma_lex_asymmetric(a, b);
    lemma_lex_asymmetric(a, c);
    lemma_lex_asymmetric(b, c);
    lemma_lex_total(a, b);
    lemma_lex_total(a, c);
    lemma_lex_total(b, c);
    lemma_lex_transitive(a, b, c);
    lemma_lex_transitive(a, c, b);
    lemma_lex_transitive(b, a, c);
    lemma_lex_transitive(b, c, a);
    lemma_lex_transitive(c, a, b);
    lemma_lex_transitive(c, b, a);
}

/// The key of two words does not depend on their order.
pub proof fn lemma_bow2_is_order_free(a: Seq<char>, b: Seq<char>)
    ensures
        bow2_key(a, b) == bow2_key(b, a),
{
    lemma_lex_asymmetric(a, b);
    lemma_lex_total(a, b);
}

/// The key of three words does not depend on their order.
pub proof fn lemma_bow3_is_order_free(a: Seq<char>, b: Seq<char>, c: Seq<char>)
    ensures
        bow3_key(a, b, c) == bow3_key(b, a, c),
        bow3_key(a, b, c) == bow3_key(a, c, b),
        bow3_key(a, b, c) == bow3_key(c, b, a),
        bow3_key(a, b, c) == bow3_key(b, c, a),
        bow3_key(a, b, c) == bow3_key(c, a, b),
{
    lemma_lex_facts(a, b, c);
    lemma_bow2_is_order_free(a, b);
    lemma_bow2_is_order_free(a, c);
    lemma_bow2_is_order_free(b, c);
}

/// The sorted list with one more word, put behind the last word that does not
/// sort behind it.
pub open spec fn with_word(sorted: Seq<Seq<char>>, w: Seq<char>) -> Seq<Seq<char>>
    decreases sorted.len(),
{
    if sorted.len() == 0 {
        seq![w]
    } else if !lex_lt(w, sorted.last()) {
        sorted.push(w)
    } else {
        with_word(sorted.drop_last(), w).push(sorted.last())
    }
}

/// The words in rising order.
pub open spec fn in_rising_order(ws: Seq<Seq<char>>) -> Seq<Seq<char>>
    decreases ws.len(),
{
    if ws.len() == 0 {
        ws
    } else {
        with_word(in_rising_order(ws.drop_last()), ws.last())
    }
}

/// The bag-of-words key of any number of words: the words in rising order,
/// joined by spaces.
pub open spec fn bag_key(ws: Seq<Seq<char>>) -> Seq<char> {
    joined(in_rising_order(ws))
}

/// Putting a word into a sorted list is an insertion behind the last word
/// that does not sort behind it.
pub proof fn lemma_with_word_at(sorted: Seq<Seq<char>>, w: Seq<char>, p: int)
    requires
        0 <= p <= sorted.len(),
        forall|q: int| p <= q < sorted.len() ==> lex_lt(w, #[trigger] sorted[q]),
        p > 0 ==> !lex_lt(w, sorted[p - 1]),
    ensures
        with_word(sorted, w) == sorted.insert(p, w),
    decreases sorted.len(),
{
    if sorted.len() == 0 {
        assert(sorted.insert(p, w) =~= seq![w]);
    } else if p == sorted.len() {
        assert(sorted.insert(p, w) =~= sorted.push(w));
    } else {
        assert(lex_lt(w, sorted[sorted.len() - 1]));
        lemma_with_word_at(sorted.drop_last(), w, p);
        assert(sorted.insert(p, w) =~= sorted.drop_last().insert(p, w).push(sorted.last()));
    }
}

/// A sorted list with one more word is sorted, has one word more, and holds
/// the words of the list and the word, each as often as before.
pub proof fn lemma_with_word_is_sorted(sorted: Seq<Seq<char>>, w: Seq<char>)
    requires
        in_order(sorted),
    ensures
        in_order(with_word(sorted, w)),
        with_word(sorted, w).len() == sorted.len() + 1,
        with_word(sorted, w).to_multiset() == sorted.to_multiset().insert(w),
        with_word(sorted, w).last() == w || (sorted.len() > 0 && with_word(sorted, w).last()
            == sorted.last()),
    decreases sorted.len(),
{
    broadcast use vstd::seq_lib::to_multiset_build;

    if sorted.len() == 0 {
        assert(in_order(seq![w]));
        assert(seq![w] =~= Seq::<Seq<char>>::empty().push(w));
        assert(sorted =~= Seq::<Seq<char>>::empty());
    } else if !lex_lt(w, sorted.last()) {
        let all = sorted.push(w);
        assert forall|i: int, j: int| 0 <= i < j < all.len() implies !lex_lt(
            #[trigger] all[j],
            #[trigger] all[i],
        ) by {
            if j == sorted.len() {
                if i < sorted.len() - 1 {
                    assert(!lex_lt(sorted[sorted.len() - 1], sorted[i]));
                    lemma_lex_facts(w, sorted.last(), sorted[i]);
                }
            } else {
                assert(!lex_lt(sorted[j], sorted[i]));
            }
        }
    } else {
        let rest = sorted.drop_last();
        assert(in_order(rest)) by {
            assert forall|i: int, j: int| 0 <= i < j < rest.len() implies !lex_lt(
                #[trigger] rest[j],
                #[trigger] rest[i],
            ) by {
                assert(!lex_lt(sorted[j], sorted[i]));
            }
        }
        lemma_with_word_is_sorted(rest, w);
        let r = with_word(rest, w);
        let all = r.push(sorted.last());
        assert(sorted =~= rest.push(sorted.last()));
        assert(all.to_multiset() =~= sorted.to_multiset().insert(w));
        // every word of `r` is `w` or a word of `rest`, and none sorts behind the last
        assert forall|i: int| 0 <= i < r.len() implies !lex_lt(sorted.last(), #[trigger] r[i]) by {
            assert(r.to_multiset().count(r[i]) > 0) by {
                vstd::seq_lib::to_multiset_contains(r, r[i]);
            }
            if r[i] != w {
                assert(rest.to_multiset().count(r[i]) > 0);
                vstd::seq_lib::to_multiset_contains(rest, r[i]);
                let q = choose|q: int| 0 <= q < rest.len() && rest[q] == r[i];
                assert(!lex_lt(sorted[sorted.len() - 1], sorted[q]));
            } else {
                lemma_lex_asymmetric(w, sorted.last());
            }
        }
        assert forall|i: int, j: int| 0 <= i < j < all.len() implies !lex_lt(
            #[trigger] all[j],
            #[trigger] all[i],
        ) by {
            if j < r.len() {
                assert(!lex_lt(r[j], r[i]));
            }
        }
    }
}

/// The words in rising order are sorted, are as many as the words, and hold
/// each word as often as the words do.
pub proof fn lemma_rising_order_is_sorted(ws: Seq<Seq<char>>)
    ensures
        in_order(in_rising_order(ws)),
        in_rising_order(ws).len() == ws.len(),
        in_rising_order(ws).to_multiset() == ws.to_multiset(),
    decreases ws.len(),
{
    broadcast use vstd::seq_lib::to_multiset_build;

    if ws.len() > 0 {
        lemma_rising_order_is_sorted(ws.drop_last());
        lemma_with_word_is_sorted(in_rising_order(ws.drop_last()), ws.last());
        assert(ws =~= ws.drop_last().push(ws.last()));
    }
}

/// The words joined by spaces, in the order given.
pub fn join_words(ws: &Vec<String>) -> (r: String)
    ensures
        r@ == joined(texts(ws@)),
{
    let ghost all = texts(ws@);
    let mut r = String::new();
    let mut n: usize = 0;
    assert(r@ =~= joined(all.take(0)));
    while n < ws.len()
        invariant
            n <= ws.len(),
            all == texts(ws@),
            r@ == joined(all.take(n as int)),
        decreases ws.len() - n,
    {
        proof {
            reveal_strlit(" ");
            assert(all.take(n + 1).drop_last() =~= all.take(n as int));
            assert(ws@[n as int]@ == all[n as int]);
        }
        if n > 0 {
            r.append(" ");
        }
        r.append(ws[n].as_str());
        assert(r@ =~= joined(all.take(n + 1)));
        n += 1;
    }
    assert(all.take(ws.len() as int) =~= all);
    r
}

/// The bag-of-words key of any number of words.
pub fn bag_of(ws: &Vec<String>) -> (r: String)
    ensures
        r@ == bag_key(texts(ws@)),
{
    let ghost all = texts(ws@);
    let mut sorted: Vec<String> = Vec::new();
    let mut n: usize = 0;
    assert(texts(sorted@) =~= in_rising_order(all.take(0)));
    while n < ws.len()
        invariant
            n <= ws.len(),
            all == texts(ws@),
            texts(sorted@) == in_rising_order(all.take(n as int)),
        decreases ws.len() - n,
    {
        let ghost before = texts(sorted@);
        let ghost w = all[n as int];
        assert(ws@[n as int]@ == w);
        let mut p: usize = sorted.len();
        while p > 0 && str_lt(ws[n].as_str(), sorted[p - 1].as_str())
            invariant
                p <= sorted.len(),
                n < ws.len(),
                before == texts(sorted@),
                ws@[n as int]@ == w,
                forall|q: int| p <= q < before.len() ==> lex_lt(w, #[trigger] before[q]),
            decreases p,
        {
            assert(sorted@[p - 1]@ == before[p - 1]);
            p -= 1;
        }
        proof {
            if p > 0 {
                assert(sorted@[p - 1]@ == before[p - 1]);
            }
            lemma_with_word_at(before, w, p as int);
            assert(all.take(n + 1).drop_last() =~= all.take(n as int));
        }
        sorted.insert(p, ws[n].clone());
        assert(texts(sorted@) =~= before.insert(p as int, w));
        n += 1;
    }
    assert(all.take(ws.len() as int) =~= all);
    join_words(&sorted)
}

/// One word is its own bag-of-words key.
pub proof fn lemma_bag_key_of_one(a: Seq<char>)
    ensures
        in_rising_order(seq![a]) == seq![a],
        bag_key(seq![a]) == a,
{
    let none = Seq::<Seq<char>>::empty();
    assert(seq![a].drop_last() =~= none);
    assert(in_rising_order(none) == none);
    assert(with_word(none, a) == seq![a]);
}

/// Two words joined by a space read as the first, a space, the second.
pub proof fn lemma_joined_two(x: Seq<char>, y: Seq<char>)
    ensures
        joined(seq![x, y]) == spaced(x, y),
{
    assert(seq![x, y].drop_last() =~= seq![x]);
    assert(joined(seq![x]) == x);
}

/// The bag-of-words key of two words is their key as a pair.
pub proof fn lemma_bag_key_of_two(a: Seq<char>, b: Seq<char>)
    ensures
        in_rising_order(seq![a, b]) == (if lex_lt(b, a) {
            seq![b, a]
        } else {
            seq![a, b]
        }),
        bag_key(seq![a, b]) == bow2_key(a, b),
{
    lemma_bag_key_of_one(a);
    lemma_lex_asymmetric(a, b);
    lemma_lex_total(a, b);
    assert(seq![a, b].drop_last() =~= seq![a]);
    if lex_lt(b, a) {
        lemma_with_word_at(seq![a], b, 0);
        assert(seq![a].insert(0, b) =~= seq![b, a]);
        lemma_joined_two(b, a);
    } else {
        lemma_with_word_at(seq![a], b, 1);
        assert(seq![a].insert(1, b) =~= seq![a, b]);
        lemma_joined_two(a, b);
    }
}

/// Three words joined by spaces read as the first, a space, and the other
/// two joined.
pub proof fn lemma_joined_three(x: Seq<char>, y: Seq<char>, z: Seq<char>)
    ensures
        joined(seq![x, y, z]) == spaced(x, spaced(y, z)),
{
    assert(seq![x, y, z].drop_last() =~= seq![x, y]);
    lemma_joined_two(x, y);
    assert(spaced(x, y) + seq![' '] + z =~= spaced(x, spaced(y, z)));
}

/// Three words in rising order: the first two in rising order, with the
/// third behind the last of them that does not sort behind it.
pub proof fn lemma_rising_three(a: Seq<char>, b: Seq<char>, c: Seq<char>)
    ensures
        ({
            let x = if lex_lt(b, a) {
                b
            } else {
                a
            };
            let y = if lex_lt(b, a) {
                a
            } else {
                b
            };
            in_rising_order(seq![a, b, c]) == (if !lex_lt(c, y) {
                seq![x, y, c]
            } else if !lex_lt(c, x) {
                seq![x, c, y]
            } else {
                seq![c, x, y]
            })
        }),
{
    lemma_bag_key_of_two(a, b);
    assert(seq![a, b, c].drop_last() =~= seq![a, b]);
    let two = in_rising_order(seq![a, b]);
    let x = two[0];
    let y = two[1];
    if !lex_lt(c, y) {
        lemma_with_word_at(two, c, 2);
        assert(two.insert(2, c) =~= seq![x, y, c]);
    } else if !lex_lt(c, x) {
        lemma_with_word_at(two, c, 1);
        assert(two.insert(1, c) =~= seq![x, c, y]);
    } else {
        lemma_with_word_at(two, c, 0);
        assert(two.insert(0, c) =~= seq![c, x, y]);
    }
}

/// The bag-of-words key of three words is their key as a triple.
pub proof fn lemma_bag_key_of_three(a: Seq<char>, b: Seq<char>, c: Seq<char>)
    ensures
        bag_key(seq![a, b, c]) == bow3_key(a, b, c),
{
    lemma_rising_three(a, b, c);
    lemma_lex_facts(a, b, c);
    let x = if lex_lt(b, a) {
        b
    } else {
        a
    };
    let y = if lex_lt(b, a) {
        a
    } else {
        b
    };
    if !lex_lt(c, y) {
        lemma_joined_three(x, y, c);
        assert(bow3_key(a, b, c) == spaced(x, spaced(y, c)));
    } else if !lex_lt(c, x) {
        lemma_joined_three(x, c, y);
        assert(bow3_key(a, b, c) == spaced(x, spaced(c, y)));
    } else {
        lemma_joined_three(c, x, y);
        assert(bow3_key(a, b, c) == spaced(c, spaced(x, y)));
    }
}

} // verus!
